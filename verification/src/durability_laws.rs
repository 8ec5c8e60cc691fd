//! What holds of the actions that the engine hands out: what is logged, and what is durable when.

use vstd::prelude::*;
use crate::laws;
use crate::lsm_storage::actions::{ActionView, ManifestRecord};
use crate::lsm_storage::recovery;
use crate::lsm_storage::recovery::RecoveryView;
use crate::lsm_storage::steps;
use crate::lsm_storage::steps::{CloseStepView, EngineView, ForceFlushStepView, WriteStepView};
use crate::lsm_storage::LsmStorageOptions;
use crate::mem_table::MemView;
use crate::run::Entries;

verus! {

/// The actions that the rest of a batch hands out, one step after the other.
pub open spec fn write_trace(
    e: EngineView,
    entries: Seq<(Seq<u8>, Seq<u8>)>,
    step: WriteStepView,
) -> Seq<ActionView>
    decreases
            entries.len() - match step {
                WriteStepView::Begin => 0,
                WriteStepView::Put(i) => i,
                WriteStepView::TryFreeze(i, _) => i,
                WriteStepView::Publish(i, _) => i,
                WriteStepView::Done => entries.len() as int,
            },
            match step {
                WriteStepView::Begin => 3int,
                WriteStepView::Put(_) => 2,
                WriteStepView::TryFreeze(_, _) => 1,
                WriteStepView::Publish(_, _) => 0,
                WriteStepView::Done => 0,
            },
{
    let (f, next) = steps::write_step(e, entries, step);
    let now = steps::write_actions(e, entries, step);
    match step {
        WriteStepView::Begin => now + write_trace(f, entries, next),
        WriteStepView::Put(i) => if i < entries.len() {
            now + write_trace(f, entries, next)
        } else {
            now
        },
        WriteStepView::TryFreeze(i, _) => if i < entries.len() {
            now + write_trace(f, entries, next)
        } else {
            now
        },
        WriteStepView::Publish(i, _) => if i < entries.len() {
            now + write_trace(f, entries, next)
        } else {
            now
        },
        WriteStepView::Done => now,
    }
}

/// The actions that the rest of closing the store hands out.
pub open spec fn close_trace(e: EngineView, step: CloseStepView) -> Seq<ActionView>
    decreases
            match step {
                CloseStepView::Begin => 3int,
                CloseStepView::Save => 2,
                _ => 1,
            },
            e.state.imm_memtables.len(),
            match step {
                CloseStepView::Drain => 1int,
                _ => 0,
            },
{
    let (f, next) = steps::close_step(e, step);
    let now = steps::close_actions(e, step);
    match step {
        CloseStepView::Begin => now + close_trace(f, next),
        CloseStepView::Save => if next is Drain {
            now + close_trace(f, next)
        } else {
            now
        },
        CloseStepView::Drain => if next is Install {
            now + close_trace(f, next)
        } else {
            now
        },
        CloseStepView::Install(_) => if e.state.imm_memtables.len() > 0 {
            now + close_trace(f, next)
        } else {
            now
        },
        CloseStepView::Done => now,
    }
}

/// The actions that a forced flush hands out.
pub open spec fn force_flush_trace(e: EngineView) -> Seq<ActionView> {
    let begin = ForceFlushStepView::Begin;
    let (e1, s1) = steps::force_flush_step(e, begin);
    let (e2, s2) = steps::force_flush_step(e1, s1);
    let (e3, s3) = steps::force_flush_step(e2, s2);
    steps::force_flush_actions(e, begin) + steps::force_flush_actions(e1, s1)
        + steps::force_flush_actions(e2, s2) + steps::force_flush_actions(e3, s3)
}

/// The entries that actions append to logs, in order.
pub open spec fn appended(actions: Seq<ActionView>) -> Seq<(Seq<u8>, Seq<u8>)>
    decreases actions.len(),
{
    if actions.len() == 0 {
        Seq::empty()
    } else {
        match actions[0] {
            ActionView::AppendWal(_, k, v) => seq![(k, v)] + appended(actions.drop_first()),
            _ => appended(actions.drop_first()),
        }
    }
}

proof fn appended_concat(a: Seq<ActionView>, b: Seq<ActionView>)
    ensures
        appended(a + b) == appended(a) + appended(b),
    decreases a.len(),
{
    if a.len() == 0 {
        assert(a + b =~= b);
        assert(appended(a) + appended(b) =~= appended(b));
    } else {
        appended_concat(a.drop_first(), b);
        assert((a + b).drop_first() =~= a.drop_first() + b);
        assert((a + b)[0] == a[0]);
        assert(appended(a + b) =~= appended(a) + appended(b));
    }
}

/// Actions that do not append.
proof fn appended_nothing(actions: Seq<ActionView>)
    requires
        forall|i: int| 0 <= i < actions.len() ==> !(#[trigger] actions[i] is AppendWal),
    ensures
        appended(actions) == Seq::<(Seq<u8>, Seq<u8>)>::empty(),
    decreases actions.len(),
{
    if actions.len() > 0 {
        let rest = actions.drop_first();
        assert(!(actions[0] is AppendWal));
        assert forall|i: int| 0 <= i < rest.len() implies !(#[trigger] rest[i] is AppendWal) by {
            assert(rest[i] == actions[i + 1]);
        }
        appended_nothing(rest);
    }
}

/// The action is about a log.
pub open spec fn touches_log(action: ActionView) -> bool {
    action is CreateWal || action is AppendWal || action is SyncWal || action is RemoveWal
}

/// The step is one that a batch goes through, and the memtables have logs as the options say.
spec fn in_batch(e: EngineView, entries: Seq<(Seq<u8>, Seq<u8>)>, step: WriteStepView) -> bool {
    &&& e.state.memtable.logged == e.options.enable_wal
    &&& match step {
        WriteStepView::Begin => true,
        WriteStepView::Put(i) => 0 <= i <= entries.len(),
        WriteStepView::TryFreeze(i, _) => 0 <= i < entries.len(),
        WriteStepView::Publish(i, m) => 0 <= i < entries.len() && m.logged
            == e.options.enable_wal,
        WriteStepView::Done => true,
    }
}

/// The records that are still to be put.
spec fn records_left(
    entries: Seq<(Seq<u8>, Seq<u8>)>,
    step: WriteStepView,
) -> Seq<(Seq<u8>, Seq<u8>)> {
    match step {
        WriteStepView::Begin => entries,
        WriteStepView::Put(i) => entries.skip(i),
        WriteStepView::TryFreeze(i, _) => entries.skip(i + 1),
        WriteStepView::Publish(i, _) => entries.skip(i + 1),
        WriteStepView::Done => Seq::empty(),
    }
}

proof fn write_trace_appends(
    e: EngineView,
    entries: Seq<(Seq<u8>, Seq<u8>)>,
    step: WriteStepView,
)
    requires
        in_batch(e, entries, step),
    ensures
        e.options.enable_wal ==> appended(write_trace(e, entries, step)) == records_left(
            entries,
            step,
        ),
        !e.options.enable_wal ==> forall|i: int|
            0 <= i < write_trace(e, entries, step).len() ==> !touches_log(
                #[trigger] write_trace(e, entries, step)[i],
            ),
    decreases
            entries.len() - match step {
                WriteStepView::Begin => 0,
                WriteStepView::Put(i) => i,
                WriteStepView::TryFreeze(i, _) => i,
                WriteStepView::Publish(i, _) => i,
                WriteStepView::Done => entries.len() as int,
            },
            match step {
                WriteStepView::Begin => 3int,
                WriteStepView::Put(_) => 2,
                WriteStepView::TryFreeze(_, _) => 1,
                WriteStepView::Publish(_, _) => 0,
                WriteStepView::Done => 0,
            },
{
    let (f, next) = steps::write_step(e, entries, step);
    let now = steps::write_actions(e, entries, step);
    let rest = write_trace(f, entries, next);
    appended_concat(now, rest);
    match step {
        WriteStepView::Begin => {
            assert(entries.skip(0) =~= entries);
            write_trace_appends(f, entries, next);
            assert(now + rest =~= rest);
        },
        WriteStepView::Put(i) => {
            if i < entries.len() {
                write_trace_appends(f, entries, next);
                reveal_with_fuel(appended, 2);
                assert(entries.skip(i) =~= seq![entries[i]] + entries.skip(i + 1));
                if e.options.enable_wal {
                    assert(now.drop_first() =~= Seq::empty());
                    assert(appended(now) =~= seq![entries[i]]);
                }
            } else {
                assert(entries.skip(i) =~= Seq::empty());
            }
        },
        WriteStepView::TryFreeze(i, n) => {
            write_trace_appends(f, entries, next);
            appended_nothing(now);
            assert(appended(now) + appended(rest) =~= appended(rest));
        },
        WriteStepView::Publish(i, m) => {
            write_trace_appends(f, entries, next);
            appended_nothing(now);
            assert(appended(now) + appended(rest) =~= appended(rest));
        },
        WriteStepView::Done => {},
    }
}

/// **Every record of a batch is logged**, in order and once, however long the batch is and wherever
/// the memtable is frozen. Without logs, none is touched.
pub proof fn batch_is_logged(e: EngineView, entries: Seq<(Seq<u8>, Seq<u8>)>)
    requires
        e.state.memtable.logged == e.options.enable_wal,
    ensures
        e.options.enable_wal ==> appended(write_trace(e, entries, WriteStepView::Begin))
            == entries,
        !e.options.enable_wal ==> forall|i: int|
            0 <= i < write_trace(e, entries, WriteStepView::Begin).len() ==> !touches_log(
                #[trigger] write_trace(e, entries, WriteStepView::Begin)[i],
            ),
{
    write_trace_appends(e, entries, WriteStepView::Begin);
}

/// What a loss of power would put at risk: whether names in the directory are not durable, and
/// which logs are not.
#[verifier::ext_equal]
pub struct RiskView {
    pub names: bool,
    pub logs: Set<usize>,
}

/// Nothing is at risk.
pub open spec fn no_risk() -> RiskView {
    RiskView { names: false, logs: Set::empty() }
}

/// What is at risk after an action. A file that comes or goes is a name that is not durable until
/// the directory is synced, and a log is not durable between an append and its sync. Tables and
/// records are made durable where they are written.
pub open spec fn risked(v: RiskView, action: ActionView) -> RiskView {
    match action {
        ActionView::CreateWal(_) => RiskView { names: true, ..v },
        ActionView::AppendWal(id, _, _) => RiskView { logs: v.logs.insert(id), ..v },
        ActionView::SyncWal(id) => RiskView { logs: v.logs.remove(id), ..v },
        ActionView::RemoveWal(_) => RiskView { names: true, ..v },
        ActionView::WriteSst(_) => RiskView { names: true, ..v },
        ActionView::SyncDir => RiskView { names: false, ..v },
        ActionView::CreateManifest => RiskView { names: true, ..v },
        ActionView::AddRecord(_) => v,
    }
}

pub open spec fn risked_all(v: RiskView, actions: Seq<ActionView>) -> RiskView
    decreases actions.len(),
{
    if actions.len() == 0 {
        v
    } else {
        risked_all(risked(v, actions[0]), actions.drop_first())
    }
}

/// Nothing is recorded while a name is not durable.
pub open spec fn records_are_safe(v: RiskView, actions: Seq<ActionView>) -> bool
    decreases actions.len(),
{
    actions.len() > 0 ==> {
        &&& actions[0] is AddRecord ==> !v.names
        &&& records_are_safe(risked(v, actions[0]), actions.drop_first())
    }
}

proof fn risked_concat(v: RiskView, a: Seq<ActionView>, b: Seq<ActionView>)
    ensures
        risked_all(v, a + b) == risked_all(risked_all(v, a), b),
        records_are_safe(v, a + b) <==> records_are_safe(v, a) && records_are_safe(
            risked_all(v, a),
            b,
        ),
    decreases a.len(),
{
    if a.len() == 0 {
        assert(a + b =~= b);
    } else {
        risked_concat(risked(v, a[0]), a.drop_first(), b);
        assert((a + b).drop_first() =~= a.drop_first() + b);
        assert((a + b)[0] == a[0]);
    }
}

proof fn risked_one(v: RiskView, a: ActionView)
    ensures
        risked_all(v, seq![a]) == risked(v, a),
        records_are_safe(v, seq![a]) <==> (a is AddRecord ==> !v.names),
{
    reveal_with_fuel(risked_all, 2);
    reveal_with_fuel(records_are_safe, 2);
}

proof fn risked_two(v: RiskView, a: ActionView, b: ActionView)
    ensures
        risked_all(v, seq![a, b]) == risked(risked(v, a), b),
        records_are_safe(v, seq![a, b]) <==> (a is AddRecord ==> !v.names) && (b is AddRecord
            ==> !risked(v, a).names),
{
    assert(seq![a, b].drop_first() =~= seq![b]);
    risked_one(risked(v, a), b);
}

proof fn risked_three(v: RiskView, a: ActionView, b: ActionView, c: ActionView)
    ensures
        risked_all(v, seq![a, b, c]) == risked(risked(risked(v, a), b), c),
        records_are_safe(v, seq![a, b, c]) <==> (a is AddRecord ==> !v.names) && (b is AddRecord
            ==> !risked(v, a).names) && (c is AddRecord ==> !risked(risked(v, a), b).names),
{
    assert(seq![a, b, c].drop_first() =~= seq![b, c]);
    risked_two(risked(v, a), b, c);
}

/// What may be at risk while an engine is used: the log of the current memtable, and nothing else.
pub open spec fn only_current_log(v: RiskView, e: EngineView) -> bool {
    &&& !v.names
    &&& forall|id: usize| #[trigger]
        v.logs.contains(id) ==> e.options.enable_wal && id == e.state.memtable.id
}

/// **A sync makes what was written durable**, if there is a log.
pub proof fn sync_makes_durable(v: RiskView, m: MemView)
    ensures
        m.logged ==> !risked_all(v, steps::sync_actions(m)).logs.contains(m.id),
        m.logged ==> steps::sync_actions(m) == seq![ActionView::SyncWal(m.id)],
        !m.logged ==> steps::sync_actions(m).len() == 0,
        forall|id: usize|
            id != m.id ==> (#[trigger] risked_all(v, steps::sync_actions(m)).logs.contains(id)
                <==> v.logs.contains(id)),
        risked_all(v, steps::sync_actions(m)).names == v.names,
        records_are_safe(v, steps::sync_actions(m)),
{
    if m.logged {
        risked_one(v, ActionView::SyncWal(m.id));
    }
}

/// **What making a store leaves is durable.**
pub proof fn new_store_is_durable(options: LsmStorageOptions)
    ensures
        risked_all(no_risk(), recovery::creation_actions(options)) == no_risk(),
{
    let rest = seq![
        ActionView::CreateManifest,
        ActionView::AddRecord(ManifestRecord::NewMemtable(0)),
        ActionView::SyncDir,
    ];
    let v = if options.enable_wal {
        assert(recovery::creation_actions(options).drop_first() =~= rest);
        risked(no_risk(), ActionView::CreateWal(0))
    } else {
        no_risk()
    };
    risked_three(v, rest[0], rest[1], rest[2]);
}

/// **What opening a store again leaves is durable.**
pub proof fn opened_store_is_durable(r: RecoveryView)
    ensures
        risked_all(no_risk(), recovery::recovery_actions(r)) == no_risk(),
{
    let id = (r.next_sst_id + 1) as usize;
    let record = ActionView::AddRecord(ManifestRecord::NewMemtable(id));
    if r.options.enable_wal {
        let create = ActionView::CreateWal(id);
        assert(recovery::recovery_actions(r) =~= seq![create, record, ActionView::SyncDir]);
        risked_three(no_risk(), create, record, ActionView::SyncDir);
    } else {
        risked_two(no_risk(), record, ActionView::SyncDir);
    }
}

/// **A memtable is made known when its log is durable.**
pub proof fn freeze_is_durable(v: RiskView, e: EngineView)
    requires
        !v.names,
    ensures
        risked_all(v, steps::freeze_actions(e)) == v,
        records_are_safe(v, steps::freeze_actions(e)),
{
    let record = ActionView::AddRecord(ManifestRecord::NewMemtable(e.next_sst_id));
    if e.options.enable_wal {
        risked_three(v, ActionView::CreateWal(e.next_sst_id), ActionView::SyncDir, record);
    } else {
        risked_one(v, record);
    }
}

/// **A flush is recorded when its table is durable**, and leaves no name at risk.
pub proof fn flush_is_durable(v: RiskView, e: EngineView, m: MemView)
    ensures
        ({
            let t = steps::table_of(m);
            let actions = steps::flush_actions(t) + steps::install_actions(e, t);
            &&& !risked_all(v, actions).names
            &&& risked_all(v, actions).logs == v.logs
            &&& records_are_safe(v, actions)
        }),
{
    let t = steps::table_of(m);
    let w = risked_all(v, steps::flush_actions(t));
    let record = ActionView::AddRecord(ManifestRecord::Flush(t.id));
    risked_concat(v, steps::flush_actions(t), steps::install_actions(e, t));
    risked_two(v, ActionView::WriteSst(t), ActionView::SyncDir);
    if e.options.enable_wal {
        risked_three(w, record, ActionView::RemoveWal(t.id), ActionView::SyncDir);
    } else {
        risked_two(w, record, ActionView::SyncDir);
    }
}

proof fn write_trace_risks(
    v: RiskView,
    e: EngineView,
    entries: Seq<(Seq<u8>, Seq<u8>)>,
    step: WriteStepView,
)
    requires
        only_current_log(v, e),
        in_batch(e, entries, step),
    ensures
        only_current_log(
            risked_all(v, write_trace(e, entries, step)),
            laws::write_rest(e, entries, step),
        ),
        records_are_safe(v, write_trace(e, entries, step)),
    decreases
            entries.len() - match step {
                WriteStepView::Begin => 0,
                WriteStepView::Put(i) => i,
                WriteStepView::TryFreeze(i, _) => i,
                WriteStepView::Publish(i, _) => i,
                WriteStepView::Done => entries.len() as int,
            },
            match step {
                WriteStepView::Begin => 3int,
                WriteStepView::Put(_) => 2,
                WriteStepView::TryFreeze(_, _) => 1,
                WriteStepView::Publish(_, _) => 0,
                WriteStepView::Done => 0,
            },
{
    let (f, next) = steps::write_step(e, entries, step);
    let now = steps::write_actions(e, entries, step);
    let rest = write_trace(f, entries, next);
    let w = risked_all(v, now);
    risked_concat(v, now, rest);
    match step {
        WriteStepView::Begin => {
            write_trace_risks(w, f, entries, next);
        },
        WriteStepView::Put(i) => {
            if i < entries.len() {
                if e.state.memtable.logged {
                    risked_one(v, now[0]);
                    assert(now =~= seq![now[0]]);
                }
                write_trace_risks(w, f, entries, next);
            } else {
                assert(now =~= Seq::empty());
            }
        },
        WriteStepView::TryFreeze(i, n) => {
            freeze_is_durable(v, e);
            write_trace_risks(w, f, entries, next);
        },
        WriteStepView::Publish(i, m) => {
            sync_makes_durable(v, e.state.memtable);
            assert forall|id: usize| #[trigger] w.logs.contains(id) implies f.options.enable_wal
                && id == f.state.memtable.id by {
                assert(v.logs.contains(id) || id == e.state.memtable.id);
            }
            write_trace_risks(w, f, entries, next);
        },
        WriteStepView::Done => {},
    }
}

/// **A batch puts nothing at risk but the log of the current memtable**: what is frozen on the way
/// is durable, and nothing is recorded before the names it rests on are.
pub proof fn batch_risks_current_log(
    v: RiskView,
    e: EngineView,
    entries: Seq<(Seq<u8>, Seq<u8>)>,
)
    requires
        only_current_log(v, e),
        e.state.memtable.logged == e.options.enable_wal,
    ensures
        only_current_log(
            risked_all(v, write_trace(e, entries, WriteStepView::Begin)),
            laws::write_all(e, entries),
        ),
        records_are_safe(v, write_trace(e, entries, WriteStepView::Begin)),
{
    write_trace_risks(v, e, entries, WriteStepView::Begin);
}

proof fn drain_risks_nothing(v: RiskView, e: EngineView)
    requires
        !v.names,
        !e.options.enable_wal,
    ensures
        risked_all(v, close_trace(e, CloseStepView::Drain)) == v,
        records_are_safe(v, close_trace(e, CloseStepView::Drain)),
    decreases e.state.imm_memtables.len(),
{
    let now = steps::close_actions(e, CloseStepView::Drain);
    reveal_with_fuel(close_trace, 3);
    if e.state.imm_memtables.len() == 0 {
        risked_one(v, ActionView::SyncDir);
    } else {
        let m = e.state.imm_memtables.last();
        let t = steps::table_of(m);
        let f = steps::installed(e, t);
        let install = steps::close_actions(e, CloseStepView::Install(t));
        let rest = close_trace(f, CloseStepView::Drain);
        flush_is_durable(v, e, m);
        drain_risks_nothing(v, f);
        assert(close_trace(e, CloseStepView::Drain) =~= now + (install + rest));
        assert(now + (install + rest) =~= (now + install) + rest);
        assert(risked_all(v, now + install) =~= v);
        risked_concat(v, now + install, rest);
    }
}

/// **A closed store is durable**: nothing that the engine wrote is at risk any more.
pub proof fn closed_store_is_durable(v: RiskView, e: EngineView)
    requires
        only_current_log(v, e),
        e.state.memtable.logged == e.options.enable_wal,
    ensures
        risked_all(v, close_trace(e, CloseStepView::Begin)) == no_risk(),
        records_are_safe(v, close_trace(e, CloseStepView::Begin)),
{
    let sync = ActionView::SyncDir;
    let m = e.state.memtable;
    let save = steps::close_actions(e, CloseStepView::Save);
    let (f, next) = steps::close_step(e, CloseStepView::Save);
    reveal_with_fuel(close_trace, 3);
    risked_one(v, sync);
    assert(risked(v, sync) =~= v);
    risked_concat(v, seq![sync], close_trace(e, CloseStepView::Save));
    if e.options.enable_wal {
        assert(save =~= seq![ActionView::SyncWal(m.id), sync]);
        risked_two(v, ActionView::SyncWal(m.id), sync);
        assert(risked_all(v, save) =~= no_risk());
    } else {
        assert(v =~= no_risk());
        assert(save =~= Seq::empty());
        risked_concat(v, save, close_trace(f, CloseStepView::Drain));
        drain_risks_nothing(v, f);
    }
}

proof fn drain_syncs_directory(v: RiskView, e: EngineView)
    ensures
        !risked_all(v, close_trace(e, CloseStepView::Drain)).names,
    decreases e.state.imm_memtables.len(),
{
    let now = steps::close_actions(e, CloseStepView::Drain);
    reveal_with_fuel(close_trace, 3);
    if e.state.imm_memtables.len() == 0 {
        risked_one(v, ActionView::SyncDir);
    } else {
        let m = e.state.imm_memtables.last();
        let t = steps::table_of(m);
        let f = steps::installed(e, t);
        let install = steps::close_actions(e, CloseStepView::Install(t));
        let rest = close_trace(f, CloseStepView::Drain);
        assert(close_trace(e, CloseStepView::Drain) =~= (now + install) + rest);
        risked_concat(v, now + install, rest);
        drain_syncs_directory(risked_all(v, now + install), f);
    }
}

/// **Closing makes names durable, whatever was at risk**: once before the workers are waited for,
/// and again with the last of its steps, for what they did until then. The log of a memtable that
/// holds something is synced on the way.
pub proof fn closing_syncs_whatever_was_at_risk(v: RiskView, e: EngineView)
    ensures
        !risked_all(v, steps::close_actions(e, CloseStepView::Begin)).names,
        !risked_all(v, close_trace(e, CloseStepView::Save)).names,
        !risked_all(v, close_trace(e, CloseStepView::Drain)).names,
        e.state.memtable.logged && e.state.memtable.entries != Entries::empty()
            ==> !risked_all(v, steps::close_actions(e, CloseStepView::Save)).logs.contains(
            e.state.memtable.id,
        ),
{
    let sync = ActionView::SyncDir;
    let save = steps::close_actions(e, CloseStepView::Save);
    let synced = steps::sync_actions(e.state.memtable);
    let (f, next) = steps::close_step(e, CloseStepView::Save);
    risked_one(v, sync);
    drain_syncs_directory(v, e);
    reveal_with_fuel(close_trace, 2);
    sync_makes_durable(v, e.state.memtable);
    if e.options.enable_wal {
        assert(save =~= synced + seq![sync]);
        risked_concat(v, synced, seq![sync]);
        risked_one(risked_all(v, synced), sync);
    } else {
        risked_concat(v, save, close_trace(f, CloseStepView::Drain));
        drain_syncs_directory(risked_all(v, save), f);
    }
}

/// **A flush removes the log of the memtable that it writes**, if there are logs, and no other.
pub proof fn flush_removes_its_log(e: EngineView, m: MemView, id: usize)
    ensures
        ({
            let t = steps::table_of(m);
            let actions = steps::flush_actions(t) + steps::install_actions(e, t);
            actions.contains(ActionView::RemoveWal(id)) <==> e.options.enable_wal && id == m.id
        }),
{
    let t = steps::table_of(m);
    let actions = steps::flush_actions(t) + steps::install_actions(e, t);
    if e.options.enable_wal {
        assert(actions[3] == ActionView::RemoveWal(m.id));
    }
    if actions.contains(ActionView::RemoveWal(id)) {
        let i = choose|i: int|
            0 <= i < actions.len() && actions[i] == ActionView::RemoveWal(id);
        assert(i == 3 && id == m.id);
    }
}

/// **A forced flush leaves nothing at risk** but the log of the current memtable, which is empty.
pub proof fn force_flush_is_durable(v: RiskView, e: EngineView)
    requires
        only_current_log(v, e),
        e.state.memtable.logged == e.options.enable_wal,
    ensures
        only_current_log(risked_all(v, force_flush_trace(e)), laws::force_flush_all(e)),
        records_are_safe(v, force_flush_trace(e)),
{
    let begin = ForceFlushStepView::Begin;
    let (e1, s1) = steps::force_flush_step(e, begin);
    let (e2, s2) = steps::force_flush_step(e1, s1);
    let (e3, s3) = steps::force_flush_step(e2, s2);
    let (a, b) = (steps::force_flush_actions(e, begin), steps::force_flush_actions(e1, s1));
    let (c, d) = (steps::force_flush_actions(e2, s2), steps::force_flush_actions(e3, s3));
    laws::force_flush_steps(e);
    if e.state.memtable.entries == Entries::empty() {
        assert(force_flush_trace(e) =~= b + c);
        if e.state.imm_memtables.len() > 0 {
            flush_is_durable(v, e, e.state.imm_memtables.last());
        } else {
            assert(b + c =~= Seq::empty());
        }
    } else {
        let w = risked_all(v, b);
        assert(force_flush_trace(e) =~= (a + b) + (c + d));
        freeze_is_durable(v, e);
        sync_makes_durable(v, e.state.memtable);
        risked_concat(v, a, b);
        risked_concat(v, a + b, c + d);
        assert forall|id: usize| !(#[trigger] w.logs.contains(id)) by {
            assert(w.logs.contains(id) ==> v.logs.contains(id) || id == e.state.memtable.id);
        }
        flush_is_durable(w, e2, e2.state.imm_memtables.last());
    }
}

} // verus!
