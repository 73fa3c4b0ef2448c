//! Planning destinations for a batch, and gathering the outcome of a run.
use vstd::prelude::*;
use crate::extract::{extraction_reason, ExtractionError};
use crate::naming::{assign, assigned_name, lemma_assigned_name_free, ClaimedNames};

verus! {

/// The phase in which a file failed.
#[derive(Clone, Copy, Debug, PartialEq, Eq, Structural)]
pub enum Stage {
    Extraction,
    Move,
}

/// A committed pairing of a candidate (by its index in enumeration order)
/// with the name it gets in the destination directory.
pub struct PlannedMove {
    pub source: usize,
    pub dest_name: String,
}

/// A file that could not be handled, the phase where it failed, and why.
pub struct FailureRecord {
    pub source: usize,
    pub stage: Stage,
    pub reason: String,
}

/// Why a planned move failed.
pub struct MoveError {
    pub reason: String,
}

/// The moves to perform and the candidates that failed extraction.
pub struct Plan {
    pub moves: Vec<PlannedMove>,
    pub failures: Vec<FailureRecord>,
}

/// The outcome of a run: the moves that were made and every failure.
pub struct RunReport {
    pub moved: Vec<PlannedMove>,
    pub failures: Vec<FailureRecord>,
}

/// The destination names of the first `j` moves.
pub open spec fn dests_before(moves: Seq<PlannedMove>, j: int) -> Set<Seq<char>> {
    moves.subrange(0, j).map_values(|m: PlannedMove| m.dest_name@).to_set()
}

/// `moves` and `failures` are the plan for the first `n` extraction outcomes,
/// with `existing` the names already in the destination directory: every
/// success in order, each named after its timestamp given the names in use
/// before it, and every failure in order.
pub open spec fn plan_upto(
    outcomes: Seq<Result<String, ExtractionError>>,
    n: int,
    existing: Set<Seq<char>>,
    moves: Seq<PlannedMove>,
    failures: Seq<FailureRecord>,
) -> bool {
    &&& forall|j: int|
        0 <= j < moves.len() ==> #[trigger] moves[j].source < n && outcomes[moves[j].source as int] is Ok
    &&& forall|j1: int, j2: int|
        0 <= j1 < j2 < moves.len() ==> #[trigger] moves[j1].source < #[trigger] moves[j2].source
    &&& forall|i: int|
        0 <= i < n && (#[trigger] outcomes[i]) is Ok ==> exists|j: int|
            0 <= j < moves.len() && #[trigger] moves[j].source == i
    &&& forall|j: int|
        0 <= j < moves.len() ==> (#[trigger] moves[j]).dest_name@ == assigned_name(
            outcomes[moves[j].source as int]->Ok_0@,
            dests_before(moves, j) + existing,
        )
    &&& forall|k: int|
        0 <= k < failures.len() ==> {
            let f = #[trigger] failures[k];
            &&& f.source < n
            &&& outcomes[f.source as int] is Err
            &&& f.stage == Stage::Extraction
            &&& f.reason@ == extraction_reason(outcomes[f.source as int]->Err_0)
        }
    &&& forall|k1: int, k2: int|
        0 <= k1 < k2 < failures.len() ==> #[trigger] failures[k1].source
            < #[trigger] failures[k2].source
    &&& forall|i: int|
        0 <= i < n && (#[trigger] outcomes[i]) is Err ==> exists|k: int|
            0 <= k < failures.len() && #[trigger] failures[k].source == i
}

pub open spec fn plan_of(
    outcomes: Seq<Result<String, ExtractionError>>,
    existing: Set<Seq<char>>,
    p: Plan,
) -> bool {
    plan_upto(outcomes, outcomes.len() as int, existing, p.moves@, p.failures@)
}

proof fn lemma_plan_push_move(
    outcomes: Seq<Result<String, ExtractionError>>,
    i: int,
    ex: Set<Seq<char>>,
    moves: Seq<PlannedMove>,
    failures: Seq<FailureRecord>,
    m: PlannedMove,
)
    requires
        0 <= i < outcomes.len(),
        plan_upto(outcomes, i, ex, moves, failures),
        outcomes[i] is Ok,
        m.source == i,
        m.dest_name@ == assigned_name(outcomes[i]->Ok_0@, dests_before(moves, moves.len() as int) + ex),
    ensures
        plan_upto(outcomes, i + 1, ex, moves.push(m), failures),
        dests_before(moves.push(m), moves.len() as int + 1) == dests_before(moves, moves.len() as int).insert(
            m.dest_name@,
        ),
{
    let nm = moves.push(m);
    assert forall|j: int| 0 <= j <= moves.len() implies dests_before(nm, j) == dests_before(
        moves,
        j,
    ) by {
        assert(nm.subrange(0, j) =~= moves.subrange(0, j));
    }
    let m_old = moves.map_values(|x: PlannedMove| x.dest_name@);
    assert(nm.subrange(0, nm.len() as int).map_values(|x: PlannedMove| x.dest_name@) =~= m_old
        + seq![m.dest_name@]);
    assert(moves.subrange(0, moves.len() as int) =~= moves);
    Seq::lemma_to_set_insert_commutes(m_old, m.dest_name@);
    assert forall|i2: int| 0 <= i2 < i + 1 && (#[trigger] outcomes[i2]) is Ok implies exists|j: int|
        0 <= j < nm.len() && #[trigger] nm[j].source == i2 by {
        if i2 == i {
            assert(nm[moves.len() as int].source == i);
        } else {
            let j = choose|j: int| 0 <= j < moves.len() && #[trigger] moves[j].source == i2;
            assert(nm[j].source == i2);
        }
    }
    assert forall|j: int| 0 <= j < nm.len() implies (#[trigger] nm[j]).dest_name@ == assigned_name(
        outcomes[nm[j].source as int]->Ok_0@,
        dests_before(nm, j) + ex,
    ) by {
        if j < moves.len() {
            assert(nm[j] == moves[j]);
        }
    }
}

proof fn lemma_plan_push_failure(
    outcomes: Seq<Result<String, ExtractionError>>,
    i: int,
    ex: Set<Seq<char>>,
    moves: Seq<PlannedMove>,
    failures: Seq<FailureRecord>,
    f: FailureRecord,
)
    requires
        0 <= i < outcomes.len(),
        plan_upto(outcomes, i, ex, moves, failures),
        outcomes[i] is Err,
        f.source == i,
        f.stage == Stage::Extraction,
        f.reason@ == extraction_reason(outcomes[i]->Err_0),
    ensures
        plan_upto(outcomes, i + 1, ex, moves, failures.push(f)),
{
    let nf = failures.push(f);
    assert forall|i2: int| 0 <= i2 < i + 1 && (#[trigger] outcomes[i2]) is Err implies exists|k: int|
        0 <= k < nf.len() && #[trigger] nf[k].source == i2 by {
        if i2 == i {
            assert(nf[failures.len() as int].source == i);
        } else {
            let k = choose|k: int| 0 <= k < failures.len() && #[trigger] failures[k].source == i2;
            assert(nf[k].source == i2);
        }
    }
    assert forall|k: int| 0 <= k < nf.len() implies {
        let g = #[trigger] nf[k];
        &&& g.source < i + 1
        &&& outcomes[g.source as int] is Err
        &&& g.stage == Stage::Extraction
        &&& g.reason@ == extraction_reason(outcomes[g.source as int]->Err_0)
    } by {
        if k < failures.len() {
            assert(nf[k] == failures[k]);
        }
    }
}

/// Plans a batch from the extraction outcomes of the candidates, in
/// enumeration order, and the names already present in the destination
/// directory.
pub fn plan(outcomes: &Vec<Result<String, ExtractionError>>, existing: &Vec<String>) -> (p: Plan)
    requires
        outcomes@.len() + existing@.len() < usize::MAX,
    ensures
        plan_of(outcomes@, crate::naming::names_of(existing@), p),
        forall|j: int|
            0 <= j < p.moves@.len() ==> !crate::naming::names_of(existing@).contains(
                #[trigger] p.moves@[j].dest_name@,
            ),
        forall|j1: int, j2: int|
            0 <= j1 < j2 < p.moves@.len() ==> #[trigger] p.moves@[j1].dest_name@
                != #[trigger] p.moves@[j2].dest_name@,
{
    let ghost ex = crate::naming::names_of(existing@);
    let mut claimed = ClaimedNames::new();
    let mut moves: Vec<PlannedMove> = Vec::new();
    let mut failures: Vec<FailureRecord> = Vec::new();
    let mut i: usize = 0;
    while i < outcomes.len()
        invariant
            i <= outcomes@.len(),
            outcomes@.len() + existing@.len() < usize::MAX,
            ex == crate::naming::names_of(existing@),
            plan_upto(outcomes@, i as int, ex, moves@, failures@),
            claimed@ == dests_before(moves@, moves@.len() as int),
            claimed.count() == moves@.len(),
            moves@.len() <= i,
        decreases outcomes@.len() - i,
    {
        let ghost old_moves = moves@;
        let ghost old_failures = failures@;
        match &outcomes[i] {
            Ok(ts) => {
                let name = assign(ts.as_str(), &mut claimed, existing);
                let m = PlannedMove { source: i, dest_name: name };
                proof {
                    lemma_plan_push_move(outcomes@, i as int, ex, old_moves, failures@, m);
                }
                moves.push(m);
            },
            Err(e) => {
                let reason = e.reason();
                let f = FailureRecord { source: i, stage: Stage::Extraction, reason };
                proof {
                    lemma_plan_push_failure(outcomes@, i as int, ex, moves@, old_failures, f);
                }
                failures.push(f);
            },
        }
        i = i + 1;
    }
    let p = Plan { moves, failures };
    proof {
        vstd::seq_lib::seq_to_set_is_finite(existing@.map_values(|x: String| x@));
        lemma_plan_has_no_collisions(outcomes@, ex, p);
    }
    p
}

/// The moves of `moves` whose result is `Ok`, in order.
pub open spec fn moved_of(moves: Seq<PlannedMove>, results: Seq<Result<(), MoveError>>) -> Seq<
    PlannedMove,
>
    decreases moves.len(),
{
    if moves.len() == 0 {
        Seq::empty()
    } else {
        let prev = moved_of(moves.drop_last(), results);
        if results[moves.len() - 1] is Ok {
            prev.push(moves.last())
        } else {
            prev
        }
    }
}

pub open spec fn move_failure(m: PlannedMove, e: MoveError) -> FailureRecord {
    FailureRecord { source: m.source, stage: Stage::Move, reason: e.reason }
}

/// A failure record for each move of `moves` whose result is `Err`, in order.
pub open spec fn move_failures_of(
    moves: Seq<PlannedMove>,
    results: Seq<Result<(), MoveError>>,
) -> Seq<FailureRecord>
    decreases moves.len(),
{
    if moves.len() == 0 {
        Seq::empty()
    } else {
        let prev = move_failures_of(moves.drop_last(), results);
        if results[moves.len() - 1] is Err {
            prev.push(move_failure(moves.last(), results[moves.len() - 1]->Err_0))
        } else {
            prev
        }
    }
}

/// The report of a run whose plan is `p` and whose moves had `results`.
pub open spec fn report_of(p: Plan, results: Seq<Result<(), MoveError>>, r: RunReport) -> bool {
    &&& r.moved@ == moved_of(p.moves@, results)
    &&& r.failures@ == p.failures@ + move_failures_of(p.moves@, results)
}

fn copy_move(m: &PlannedMove) -> (r: PlannedMove)
    ensures
        r == *m,
{
    PlannedMove { source: m.source, dest_name: m.dest_name.clone() }
}

fn copy_failure(f: &FailureRecord) -> (r: FailureRecord)
    ensures
        r == *f,
{
    FailureRecord { source: f.source, stage: f.stage, reason: f.reason.clone() }
}

/// Gathers the outcome of a run from its plan and the result of each
/// planned move, in plan order: the moves made, and every failure of
/// extraction followed by every failed move.
pub fn conclude(p: &Plan, results: &Vec<Result<(), MoveError>>) -> (r: RunReport)
    requires
        results@.len() == p.moves@.len(),
    ensures
        report_of(*p, results@, r),
{
    let mut failures: Vec<FailureRecord> = Vec::new();
    let mut k: usize = 0;
    while k < p.failures.len()
        invariant
            k <= p.failures@.len(),
            failures@ == p.failures@.subrange(0, k as int),
        decreases p.failures@.len() - k,
    {
        failures.push(copy_failure(&p.failures[k]));
        assert(failures@ =~= p.failures@.subrange(0, k + 1));
        k = k + 1;
    }
    let mut moved: Vec<PlannedMove> = Vec::new();
    let mut j: usize = 0;
    while j < p.moves.len()
        invariant
            j <= p.moves@.len(),
            results@.len() == p.moves@.len(),
            moved@ == moved_of(p.moves@.subrange(0, j as int), results@),
            failures@ == p.failures@ + move_failures_of(p.moves@.subrange(0, j as int), results@),
        decreases p.moves@.len() - j,
    {
        let ghost pre = p.moves@.subrange(0, j as int);
        let ghost next = p.moves@.subrange(0, j + 1);
        assert(next.drop_last() =~= pre);
        match &results[j] {
            Ok(_) => {
                moved.push(copy_move(&p.moves[j]));
            },
            Err(e) => {
                let m = &p.moves[j];
                failures.push(
                    FailureRecord { source: m.source, stage: Stage::Move, reason: e.reason.clone() },
                );
                assert(failures@ =~= p.failures@ + move_failures_of(next, results@));
            },
        }
        j = j + 1;
    }
    assert(p.moves@.subrange(0, p.moves@.len() as int) =~= p.moves@);
    RunReport { moved, failures }
}

proof fn lemma_moved_from(moves: Seq<PlannedMove>, results: Seq<Result<(), MoveError>>, a: int)
    requires
        results.len() >= moves.len(),
        0 <= a < moved_of(moves, results).len(),
    ensures
        exists|j: int|
            0 <= j < moves.len() && results[j] is Ok && moved_of(moves, results)[a] == #[trigger] moves[j],
    decreases moves.len(),
{
    let pre = moves.drop_last();
    let mp = moved_of(pre, results);
    if a < mp.len() {
        lemma_moved_from(pre, results, a);
        let j = choose|j: int| 0 <= j < pre.len() && results[j] is Ok && mp[a] == #[trigger] pre[j];
        assert(moves[j] == pre[j]);
    } else {
        assert(moves[moves.len() - 1] == moves.last());
    }
}

proof fn lemma_moved_covers(moves: Seq<PlannedMove>, results: Seq<Result<(), MoveError>>, j: int)
    requires
        results.len() >= moves.len(),
        0 <= j < moves.len(),
        results[j] is Ok,
    ensures
        exists|a: int|
            0 <= a < moved_of(moves, results).len() && #[trigger] moved_of(moves, results)[a] == moves[j],
    decreases moves.len(),
{
    let pre = moves.drop_last();
    let mp = moved_of(pre, results);
    let mo = moved_of(moves, results);
    if j < moves.len() - 1 {
        lemma_moved_covers(pre, results, j);
        let a = choose|a: int| 0 <= a < mp.len() && #[trigger] mp[a] == pre[j];
        assert(mo[a] == moves[j]);
    } else {
        assert(mo[mp.len() as int] == moves[j]);
    }
}

pub open spec fn sources_increasing(moves: Seq<PlannedMove>) -> bool {
    forall|j1: int, j2: int|
        0 <= j1 < j2 < moves.len() ==> #[trigger] moves[j1].source < #[trigger] moves[j2].source
}

proof fn lemma_moved_increasing(moves: Seq<PlannedMove>, results: Seq<Result<(), MoveError>>)
    requires
        results.len() >= moves.len(),
        sources_increasing(moves),
    ensures
        sources_increasing(moved_of(moves, results)),
    decreases moves.len(),
{
    if moves.len() > 0 {
        let pre = moves.drop_last();
        let mp = moved_of(pre, results);
        let mo = moved_of(moves, results);
        assert(sources_increasing(pre)) by {
            assert forall|j1: int, j2: int| 0 <= j1 < j2 < pre.len() implies #[trigger] pre[j1].source
                < #[trigger] pre[j2].source by {
                assert(pre[j1] == moves[j1] && pre[j2] == moves[j2]);
            }
        }
        lemma_moved_increasing(pre, results);
        if results[moves.len() - 1] is Ok {
            assert forall|a1: int, a2: int| 0 <= a1 < a2 < mo.len() implies #[trigger] mo[a1].source
                < #[trigger] mo[a2].source by {
                if a2 == mp.len() {
                    lemma_moved_from(pre, results, a1);
                    let j = choose|j: int| 0 <= j < pre.len() && results[j] is Ok && mp[a1] == #[trigger] pre[j];
                    assert(moves[j] == pre[j]);
                    assert(moves[j].source < moves[moves.len() - 1].source);
                } else {
                    assert(mo[a1] == mp[a1] && mo[a2] == mp[a2]);
                }
            }
        }
    }
}

proof fn lemma_move_failure_from(moves: Seq<PlannedMove>, results: Seq<Result<(), MoveError>>, b: int)
    requires
        results.len() >= moves.len(),
        0 <= b < move_failures_of(moves, results).len(),
    ensures
        exists|j: int|
            0 <= j < moves.len() && results[j] is Err && move_failures_of(moves, results)[b]
                == move_failure(#[trigger] moves[j], results[j]->Err_0),
    decreases moves.len(),
{
    let pre = moves.drop_last();
    let mp = move_failures_of(pre, results);
    if b < mp.len() {
        lemma_move_failure_from(pre, results, b);
        let j = choose|j: int| 0 <= j < pre.len() && results[j] is Err && mp[b] == move_failure(#[trigger] pre[j], results[j]->Err_0);
        assert(moves[j] == pre[j]);
    } else {
        assert(moves[moves.len() - 1] == moves.last());
    }
}

proof fn lemma_move_failure_covers(moves: Seq<PlannedMove>, results: Seq<Result<(), MoveError>>, j: int)
    requires
        results.len() >= moves.len(),
        0 <= j < moves.len(),
        results[j] is Err,
    ensures
        exists|b: int|
            0 <= b < move_failures_of(moves, results).len() && #[trigger] move_failures_of(moves, results)[b]
                == move_failure(moves[j], results[j]->Err_0),
    decreases moves.len(),
{
    let pre = moves.drop_last();
    let mp = move_failures_of(pre, results);
    let mo = move_failures_of(moves, results);
    if j < moves.len() - 1 {
        lemma_move_failure_covers(pre, results, j);
        let b = choose|b: int| 0 <= b < mp.len() && #[trigger] mp[b] == move_failure(pre[j], results[j]->Err_0);
        assert(mo[b] == move_failure(moves[j], results[j]->Err_0));
    } else {
        assert(mo[mp.len() as int] == move_failure(moves[j], results[j]->Err_0));
    }
}

proof fn lemma_move_failures_increasing(moves: Seq<PlannedMove>, results: Seq<Result<(), MoveError>>)
    requires
        results.len() >= moves.len(),
        sources_increasing(moves),
    ensures
        forall|b1: int, b2: int|
            0 <= b1 < b2 < move_failures_of(moves, results).len() ==> #[trigger] move_failures_of(moves, results)[b1].source
                < #[trigger] move_failures_of(moves, results)[b2].source,
    decreases moves.len(),
{
    if moves.len() > 0 {
        let pre = moves.drop_last();
        let mp = move_failures_of(pre, results);
        let mo = move_failures_of(moves, results);
        assert(sources_increasing(pre)) by {
            assert forall|j1: int, j2: int| 0 <= j1 < j2 < pre.len() implies #[trigger] pre[j1].source
                < #[trigger] pre[j2].source by {
                assert(pre[j1] == moves[j1] && pre[j2] == moves[j2]);
            }
        }
        lemma_move_failures_increasing(pre, results);
        if results[moves.len() - 1] is Err {
            assert forall|b1: int, b2: int| 0 <= b1 < b2 < mo.len() implies #[trigger] mo[b1].source
                < #[trigger] mo[b2].source by {
                if b2 == mp.len() {
                    lemma_move_failure_from(pre, results, b1);
                    let j = choose|j: int| 0 <= j < pre.len() && results[j] is Err && mp[b1] == move_failure(#[trigger] pre[j], results[j]->Err_0);
                    assert(moves[j] == pre[j]);
                    assert(moves[j].source < moves[moves.len() - 1].source);
                } else {
                    assert(mo[b1] == mp[b1] && mo[b2] == mp[b2]);
                }
            }
        }
    }
}

/// Candidate `i` was moved in the run that `r` reports.
pub open spec fn was_moved(r: RunReport, i: int) -> bool {
    exists|a: int| 0 <= a < r.moved@.len() && #[trigger] r.moved@[a].source == i
}

/// Candidate `i` has a failure record in the run that `r` reports.
pub open spec fn has_failure(r: RunReport, i: int) -> bool {
    exists|b: int| 0 <= b < r.failures@.len() && #[trigger] r.failures@[b].source == i
}

proof fn lemma_partition_at(
    outcomes: Seq<Result<String, ExtractionError>>,
    existing: Set<Seq<char>>,
    p: Plan,
    results: Seq<Result<(), MoveError>>,
    r: RunReport,
    i: int,
)
    requires
        plan_of(outcomes, existing, p),
        results.len() == p.moves@.len(),
        report_of(p, results, r),
        0 <= i < outcomes.len(),
    ensures
        was_moved(r, i) != has_failure(r, i),
{
    let moves = p.moves@;
    let pf = p.failures@;
    let mo = r.moved@;
    let mf = move_failures_of(moves, results);
    if was_moved(r, i) {
        let a = choose|a: int| 0 <= a < mo.len() && #[trigger] mo[a].source == i;
        lemma_moved_from(moves, results, a);
    }
    if outcomes[i] is Err {
        let k = choose|k: int| 0 <= k < pf.len() && #[trigger] pf[k].source == i;
        assert(r.failures@[k] == pf[k]);
        if was_moved(r, i) {
            let a = choose|a: int| 0 <= a < mo.len() && #[trigger] mo[a].source == i;
            let j = choose|j: int| 0 <= j < moves.len() && results[j] is Ok && mo[a] == #[trigger] moves[j];
            assert(outcomes[moves[j].source as int] is Ok);
        }
    } else {
        let j = choose|j: int| 0 <= j < moves.len() && #[trigger] moves[j].source == i;
        if results[j] is Ok {
            lemma_moved_covers(moves, results, j);
            let a = choose|a: int| 0 <= a < mo.len() && #[trigger] moved_of(moves, results)[a] == moves[j];
            assert(mo[a].source == i);
            if has_failure(r, i) {
                let b = choose|b: int| 0 <= b < r.failures@.len() && #[trigger] r.failures@[b].source == i;
                if b < pf.len() {
                    assert(r.failures@[b] == pf[b]);
                } else {
                    assert(r.failures@[b] == mf[b - pf.len()]);
                    lemma_move_failure_from(moves, results, b - pf.len());
                    let j2 = choose|j2: int| 0 <= j2 < moves.len() && results[j2] is Err && mf[b - pf.len()] == move_failure(#[trigger] moves[j2], results[j2]->Err_0);
                    if j2 < j {
                        assert(moves[j2].source < moves[j].source);
                    } else if j < j2 {
                        assert(moves[j].source < moves[j2].source);
                    }
                }
            }
        } else {
            lemma_move_failure_covers(moves, results, j);
            let b = choose|b: int| 0 <= b < mf.len() && #[trigger] mf[b] == move_failure(moves[j], results[j]->Err_0);
            assert(r.failures@[pf.len() + b] == mf[b]);
            assert(r.failures@[pf.len() + b].source == i);
            if was_moved(r, i) {
                let a = choose|a: int| 0 <= a < mo.len() && #[trigger] mo[a].source == i;
                let j2 = choose|j2: int| 0 <= j2 < moves.len() && results[j2] is Ok && mo[a] == #[trigger] moves[j2];
                if j2 < j {
                    assert(moves[j2].source < moves[j].source);
                } else if j < j2 {
                    assert(moves[j].source < moves[j2].source);
                }
            }
        }
    }
}

proof fn lemma_reported_in_range(
    outcomes: Seq<Result<String, ExtractionError>>,
    existing: Set<Seq<char>>,
    p: Plan,
    results: Seq<Result<(), MoveError>>,
    r: RunReport,
    i: int,
)
    requires
        plan_of(outcomes, existing, p),
        results.len() == p.moves@.len(),
        report_of(p, results, r),
        was_moved(r, i) || has_failure(r, i),
    ensures
        0 <= i < outcomes.len(),
{
    let moves = p.moves@;
    let pf = p.failures@;
    let mo = r.moved@;
    let mf = move_failures_of(moves, results);
    if was_moved(r, i) {
        let a = choose|a: int| 0 <= a < mo.len() && #[trigger] mo[a].source == i;
        lemma_moved_from(moves, results, a);
        let j = choose|j: int| 0 <= j < moves.len() && results[j] is Ok && mo[a] == #[trigger] moves[j];
        assert(moves[j].source < outcomes.len());
    } else {
        let b = choose|b: int| 0 <= b < r.failures@.len() && #[trigger] r.failures@[b].source == i;
        if b < pf.len() {
            assert(r.failures@[b] == pf[b]);
        } else {
            assert(r.failures@[b] == mf[b - pf.len()]);
            lemma_move_failure_from(moves, results, b - pf.len());
            let j = choose|j: int| 0 <= j < moves.len() && results[j] is Err && mf[b - pf.len()] == move_failure(#[trigger] moves[j], results[j]->Err_0);
            assert(moves[j].source < outcomes.len());
        }
    }
}

proof fn lemma_failures_distinct(
    outcomes: Seq<Result<String, ExtractionError>>,
    existing: Set<Seq<char>>,
    p: Plan,
    results: Seq<Result<(), MoveError>>,
    r: RunReport,
    b1: int,
    b2: int,
)
    requires
        plan_of(outcomes, existing, p),
        results.len() == p.moves@.len(),
        report_of(p, results, r),
        0 <= b1 < b2 < r.failures@.len(),
    ensures
        r.failures@[b1].source != r.failures@[b2].source,
{
    let moves = p.moves@;
    let pf = p.failures@;
    let mf = move_failures_of(moves, results);
    if b2 < pf.len() {
        assert(r.failures@[b1] == pf[b1] && r.failures@[b2] == pf[b2]);
    } else if b1 >= pf.len() {
        lemma_move_failures_increasing(moves, results);
        assert(r.failures@[b1] == mf[b1 - pf.len()] && r.failures@[b2] == mf[b2 - pf.len()]);
        assert(mf[b1 - pf.len()].source < mf[b2 - pf.len()].source);
    } else {
        assert(r.failures@[b1] == pf[b1]);
        assert(r.failures@[b2] == mf[b2 - pf.len()]);
        lemma_move_failure_from(moves, results, b2 - pf.len());
        let j = choose|j: int| 0 <= j < moves.len() && results[j] is Err && mf[b2 - pf.len()] == move_failure(#[trigger] moves[j], results[j]->Err_0);
        assert(outcomes[moves[j].source as int] is Ok);
    }
}

/// Every candidate of a run ends up in exactly one of the moved files and
/// the failure records: never in both, never in neither, never twice in
/// either, and nothing else appears there.
pub proof fn lemma_run_partitions_candidates(
    outcomes: Seq<Result<String, ExtractionError>>,
    existing: Set<Seq<char>>,
    p: Plan,
    results: Seq<Result<(), MoveError>>,
    r: RunReport,
)
    requires
        plan_of(outcomes, existing, p),
        results.len() == p.moves@.len(),
        report_of(p, results, r),
    ensures
        forall|i: int| 0 <= i < outcomes.len() ==> #[trigger] was_moved(r, i) != has_failure(r, i),
        forall|i: int| #[trigger] was_moved(r, i) ==> 0 <= i < outcomes.len(),
        forall|i: int| #[trigger] has_failure(r, i) ==> 0 <= i < outcomes.len(),
        sources_increasing(r.moved@),
        forall|b1: int, b2: int|
            0 <= b1 < b2 < r.failures@.len() ==> #[trigger] r.failures@[b1].source
                != #[trigger] r.failures@[b2].source,
{
    assert forall|i: int| 0 <= i < outcomes.len() implies #[trigger] was_moved(r, i) != has_failure(r, i) by {
        lemma_partition_at(outcomes, existing, p, results, r, i);
    }
    assert forall|i: int| #[trigger] was_moved(r, i) implies 0 <= i < outcomes.len() by {
        lemma_reported_in_range(outcomes, existing, p, results, r, i);
    }
    assert forall|i: int| #[trigger] has_failure(r, i) implies 0 <= i < outcomes.len() by {
        lemma_reported_in_range(outcomes, existing, p, results, r, i);
    }
    lemma_moved_increasing(p.moves@, results);
    assert forall|b1: int, b2: int|
        0 <= b1 < b2 < r.failures@.len() implies #[trigger] r.failures@[b1].source
            != #[trigger] r.failures@[b2].source by {
        lemma_failures_distinct(outcomes, existing, p, results, r, b1, b2);
    }
}

/// After planning, the destination names are pairwise distinct and none of
/// them is among the names already in the destination directory.
pub proof fn lemma_plan_has_no_collisions(
    outcomes: Seq<Result<String, ExtractionError>>,
    existing: Set<Seq<char>>,
    p: Plan,
)
    requires
        plan_of(outcomes, existing, p),
        existing.finite(),
    ensures
        forall|j: int|
            0 <= j < p.moves@.len() ==> !existing.contains(#[trigger] p.moves@[j].dest_name@),
        forall|j1: int, j2: int|
            0 <= j1 < j2 < p.moves@.len() ==> #[trigger] p.moves@[j1].dest_name@
                != #[trigger] p.moves@[j2].dest_name@,
{
    let moves = p.moves@;
    assert forall|j: int| 0 <= j < moves.len() implies !(dests_before(moves, j) + existing).contains(
        #[trigger] moves[j].dest_name@,
    ) by {
        let taken = dests_before(moves, j) + existing;
        vstd::seq_lib::seq_to_set_is_finite(
            moves.subrange(0, j).map_values(|m: PlannedMove| m.dest_name@),
        );
        assert(moves[j] == moves[j]);
        lemma_assigned_name_free(outcomes[moves[j].source as int]->Ok_0@, taken);
    }
    assert forall|j1: int, j2: int| 0 <= j1 < j2 < moves.len() implies #[trigger] moves[j1].dest_name@
        != #[trigger] moves[j2].dest_name@ by {
        let m = moves.subrange(0, j2).map_values(|x: PlannedMove| x.dest_name@);
        assert(m[j1] == moves[j1].dest_name@);
        assert(m.contains(moves[j1].dest_name@));
        assert(dests_before(moves, j2).contains(moves[j1].dest_name@));
    }
}

/// A candidate whose timestamp was extracted is planned whatever happened to
/// the other candidates, and it is moved exactly when its own move succeeded.
pub proof fn lemma_failures_are_isolated(
    outcomes: Seq<Result<String, ExtractionError>>,
    existing: Set<Seq<char>>,
    p: Plan,
    results: Seq<Result<(), MoveError>>,
    r: RunReport,
    i: int,
)
    requires
        plan_of(outcomes, existing, p),
        results.len() == p.moves@.len(),
        report_of(p, results, r),
        0 <= i < outcomes.len(),
        outcomes[i] is Ok,
    ensures
        exists|j: int|
            0 <= j < p.moves@.len() && #[trigger] p.moves@[j].source == i && (was_moved(r, i)
                <==> results[j] is Ok),
{
    let moves = p.moves@;
    let j = choose|j: int| 0 <= j < moves.len() && #[trigger] moves[j].source == i;
    lemma_partition_at(outcomes, existing, p, results, r, i);
    if results[j] is Ok {
        lemma_moved_covers(moves, results, j);
        let a = choose|a: int| 0 <= a < r.moved@.len() && #[trigger] moved_of(moves, results)[a] == moves[j];
        assert(r.moved@[a].source == i);
        assert(was_moved(r, i));
    } else {
        let pf = p.failures@;
        let mf = move_failures_of(moves, results);
        lemma_move_failure_covers(moves, results, j);
        let b = choose|b: int| 0 <= b < mf.len() && #[trigger] mf[b] == move_failure(moves[j], results[j]->Err_0);
        assert(r.failures@[pf.len() + b] == mf[b]);
        assert(r.failures@[pf.len() + b].source == i);
        assert(has_failure(r, i));
    }
    assert(p.moves@[j].source == i && (was_moved(r, i) <==> results[j] is Ok));
}

pub open spec fn strictly_increasing(s: Seq<int>) -> bool {
    forall|i: int, j: int| 0 <= i < j < s.len() ==> #[trigger] s[i] < #[trigger] s[j]
}

/// Two strictly increasing sequences that hold the same values are equal.
proof fn lemma_sorted_same_values(s: Seq<int>, t: Seq<int>)
    requires
        strictly_increasing(s),
        strictly_increasing(t),
        forall|a: int| 0 <= a < s.len() ==> t.contains(#[trigger] s[a]),
        forall|b: int| 0 <= b < t.len() ==> s.contains(#[trigger] t[b]),
    ensures
        s == t,
{
    let m = if s.len() <= t.len() { s.len() as int } else { t.len() as int };
    lemma_sorted_prefix_agrees(s, t, m);
    if s.len() < t.len() {
        let a = choose|a: int| 0 <= a < s.len() && s[a] == t[m];
        assert(s[a] == t[a]);
        assert(t[a] < t[m]);
    } else if t.len() < s.len() {
        let b = choose|b: int| 0 <= b < t.len() && t[b] == s[m];
        assert(s[b] == t[b]);
        assert(s[b] < s[m]);
    }
    assert(s =~= t);
}

proof fn lemma_sorted_prefix_agrees(s: Seq<int>, t: Seq<int>, j: int)
    requires
        strictly_increasing(s),
        strictly_increasing(t),
        forall|a: int| 0 <= a < s.len() ==> t.contains(#[trigger] s[a]),
        forall|b: int| 0 <= b < t.len() ==> s.contains(#[trigger] t[b]),
        0 <= j <= s.len(),
        0 <= j <= t.len(),
    ensures
        forall|k: int| 0 <= k < j ==> s[k] == t[k],
    decreases j,
{
    if j > 0 {
        let k = j - 1;
        lemma_sorted_prefix_agrees(s, t, k);
        assert(t.contains(s[k]));
        assert(s.contains(t[k]));
        let b = choose|b: int| 0 <= b < t.len() && t[b] == s[k];
        let a = choose|a: int| 0 <= a < s.len() && s[a] == t[k];
        if b < k {
            assert(s[b] == t[b]);
            assert(s[b] < s[k]);
        } else if a < k {
            assert(s[a] == t[a]);
            assert(t[a] < t[k]);
        } else if b > k && a > k {
            assert(t[k] < t[b]);
            assert(s[k] < s[a]);
        }
    }
}

pub open spec fn move_sources(moves: Seq<PlannedMove>) -> Seq<int> {
    moves.map_values(|m: PlannedMove| m.source as int)
}

pub open spec fn failure_sources(failures: Seq<FailureRecord>) -> Seq<int> {
    failures.map_values(|f: FailureRecord| f.source as int)
}

/// Planning is deterministic: for the same extraction outcomes and the same
/// destination snapshot, every plan that meets the planner's contract moves
/// the same candidates, in the same order, to the same names, and records
/// the same failures.
pub proof fn lemma_plan_deterministic(
    outcomes: Seq<Result<String, ExtractionError>>,
    existing: Set<Seq<char>>,
    p: Plan,
    q: Plan,
)
    requires
        plan_of(outcomes, existing, p),
        plan_of(outcomes, existing, q),
    ensures
        p.moves@.len() == q.moves@.len(),
        forall|j: int|
            0 <= j < p.moves@.len() ==> #[trigger] p.moves@[j].source == q.moves@[j].source
                && p.moves@[j].dest_name@ == q.moves@[j].dest_name@,
        p.failures@.len() == q.failures@.len(),
        forall|k: int|
            0 <= k < p.failures@.len() ==> #[trigger] p.failures@[k].source == q.failures@[k].source
                && p.failures@[k].stage == q.failures@[k].stage
                && p.failures@[k].reason@ == q.failures@[k].reason@,
{
    lemma_move_sources_agree(outcomes, existing, p, q);
    lemma_dest_names_agree(outcomes, existing, p, q, p.moves@.len() as int);
    lemma_failures_agree(outcomes, existing, p, q);
}

proof fn lemma_move_sources_agree(
    outcomes: Seq<Result<String, ExtractionError>>,
    existing: Set<Seq<char>>,
    p: Plan,
    q: Plan,
)
    requires
        plan_of(outcomes, existing, p),
        plan_of(outcomes, existing, q),
    ensures
        p.moves@.len() == q.moves@.len(),
        forall|j: int| 0 <= j < p.moves@.len() ==> #[trigger] p.moves@[j].source == q.moves@[j].source,
{
    let s = move_sources(p.moves@);
    let t = move_sources(q.moves@);
    assert forall|a: int| 0 <= a < s.len() implies t.contains(#[trigger] s[a]) by {
        let i = p.moves@[a].source as int;
        assert(outcomes[i] is Ok);
        let b = choose|b: int| 0 <= b < q.moves@.len() && #[trigger] q.moves@[b].source == i;
        assert(t[b] == s[a]);
    }
    assert forall|b: int| 0 <= b < t.len() implies s.contains(#[trigger] t[b]) by {
        let i = q.moves@[b].source as int;
        assert(outcomes[i] is Ok);
        let a = choose|a: int| 0 <= a < p.moves@.len() && #[trigger] p.moves@[a].source == i;
        assert(s[a] == t[b]);
    }
    assert forall|i: int, j: int| 0 <= i < j < s.len() implies #[trigger] s[i] < #[trigger] s[j] by {
        assert(p.moves@[i].source < p.moves@[j].source);
    }
    assert forall|i: int, j: int| 0 <= i < j < t.len() implies #[trigger] t[i] < #[trigger] t[j] by {
        assert(q.moves@[i].source < q.moves@[j].source);
    }
    lemma_sorted_same_values(s, t);
    assert forall|j: int| 0 <= j < p.moves@.len() implies #[trigger] p.moves@[j].source == q.moves@[j].source by {
        assert(s[j] == t[j]);
    }
}

proof fn lemma_dest_names_agree(
    outcomes: Seq<Result<String, ExtractionError>>,
    existing: Set<Seq<char>>,
    p: Plan,
    q: Plan,
    j: int,
)
    requires
        plan_of(outcomes, existing, p),
        plan_of(outcomes, existing, q),
        p.moves@.len() == q.moves@.len(),
        forall|k: int| 0 <= k < p.moves@.len() ==> #[trigger] p.moves@[k].source == q.moves@[k].source,
        0 <= j <= p.moves@.len(),
    ensures
        forall|k: int| 0 <= k < j ==> #[trigger] p.moves@[k].dest_name@ == q.moves@[k].dest_name@,
    decreases j,
{
    if j > 0 {
        let k = j - 1;
        lemma_dest_names_agree(outcomes, existing, p, q, k);
        let s = p.moves@;
        let t = q.moves@;
        let ms = s.subrange(0, k).map_values(|x: PlannedMove| x.dest_name@);
        let mt = t.subrange(0, k).map_values(|x: PlannedMove| x.dest_name@);
        assert(ms =~= mt);
        assert(dests_before(s, k) == dests_before(t, k));
        assert(s[k].source == t[k].source);
        assert(s[k].dest_name@ == assigned_name(outcomes[s[k].source as int]->Ok_0@, dests_before(s, k) + existing));
        assert(t[k].dest_name@ == assigned_name(outcomes[t[k].source as int]->Ok_0@, dests_before(t, k) + existing));
    }
}

proof fn lemma_failures_agree(
    outcomes: Seq<Result<String, ExtractionError>>,
    existing: Set<Seq<char>>,
    p: Plan,
    q: Plan,
)
    requires
        plan_of(outcomes, existing, p),
        plan_of(outcomes, existing, q),
    ensures
        p.failures@.len() == q.failures@.len(),
        forall|k: int|
            0 <= k < p.failures@.len() ==> #[trigger] p.failures@[k].source == q.failures@[k].source
                && p.failures@[k].stage == q.failures@[k].stage
                && p.failures@[k].reason@ == q.failures@[k].reason@,
{
    let s = failure_sources(p.failures@);
    let t = failure_sources(q.failures@);
    assert forall|a: int| 0 <= a < s.len() implies t.contains(#[trigger] s[a]) by {
        let i = p.failures@[a].source as int;
        assert(outcomes[i] is Err);
        let b = choose|b: int| 0 <= b < q.failures@.len() && #[trigger] q.failures@[b].source == i;
        assert(t[b] == s[a]);
    }
    assert forall|b: int| 0 <= b < t.len() implies s.contains(#[trigger] t[b]) by {
        let i = q.failures@[b].source as int;
        assert(outcomes[i] is Err);
        let a = choose|a: int| 0 <= a < p.failures@.len() && #[trigger] p.failures@[a].source == i;
        assert(s[a] == t[b]);
    }
    assert forall|i: int, j: int| 0 <= i < j < s.len() implies #[trigger] s[i] < #[trigger] s[j] by {
        assert(p.failures@[i].source < p.failures@[j].source);
    }
    assert forall|i: int, j: int| 0 <= i < j < t.len() implies #[trigger] t[i] < #[trigger] t[j] by {
        assert(q.failures@[i].source < q.failures@[j].source);
    }
    lemma_sorted_same_values(s, t);
    assert forall|k: int| 0 <= k < p.failures@.len() implies #[trigger] p.failures@[k].source
        == q.failures@[k].source && p.failures@[k].stage == q.failures@[k].stage
        && p.failures@[k].reason@ == q.failures@[k].reason@ by {
        assert(s[k] == t[k]);
        assert(p.failures@[k].source == q.failures@[k].source);
    }
}

} // verus!
