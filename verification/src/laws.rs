//! Properties of the server that hold across its commands.

use vstd::prelude::*;

use crate::command::{inputs_of, Action, ServerCommands};
use crate::plan::{
    lemma_saved_bounded, lemma_saved_last_write, lemma_saved_push, lemma_saved_untouched, promises,
    record_reply, saved, Reply,
};
use crate::server::ServerState;

verus! {

/// Every command the server accepts keeps it well formed: stored values,
/// pending saves and pending jobs only ever use ids that were handed out, and
/// every reply still owed names an id not answered before and owed to no one
/// else.
pub proof fn lemma_next_keeps_wf<V, N>(s: ServerState<V, N>, command: ServerCommands<V, N>)
    requires
        s.wf(),
        s.accepts(command),
    ensures
        s.next(command).wf(),
{
    let t = s.next(command);
    match command {
        ServerCommands::Deallocate(id) => {
            assert forall|k: usize| #[trigger] t.storage.contains_key(k) implies k < t.issued by {
                assert(s.storage.contains_key(k));
            }
        },
        ServerCommands::AsyncExecutionComplete(async_id, outputs) => {
            let ids = s.pending[async_id].0.ids;
            let reply = s.pending[async_id].0.reply;
            assert forall|i: int| 0 <= i < ids.len() implies ids[i] < s.issued by {
                assert(s.pending.contains_key(async_id));
            }
            lemma_saved_bounded(s.storage, ids, outputs@, s.issued);
            assert forall|a: usize, i: int|
                t.pending.contains_key(a) && 0 <= i < t.pending[a].0.ids.len() implies #[trigger] t.pending[a].0.ids[i]
                < t.issued by {
                assert(s.pending.contains_key(a));
                assert(t.pending[a] == s.pending[a]);
                assert(s.pending[a].0.ids[i] < s.issued);
            }
            assert forall|id: usize| #[trigger] t.answered.contains(id) implies id < t.issued by {
                if !s.answered.contains(id) {
                    assert(promises(reply, id));
                }
            }
            assert forall|a: usize, id: usize|
                t.pending.contains_key(a) && #[trigger] promises(t.pending[a].0.reply, id) implies id
                < t.issued && !t.answered.contains(id) by {
                assert(t.pending[a] == s.pending[a]);
                assert(s.pending.contains_key(a));
                if promises(reply, id) {
                    assert(promises(s.pending[async_id].0.reply, id));
                }
            }
            assert forall|a: usize, b: usize, id: usize|
                t.pending.contains_key(a) && t.pending.contains_key(b) && #[trigger] promises(
                    t.pending[a].0.reply,
                    id,
                ) && #[trigger] promises(t.pending[b].0.reply, id) implies a == b by {
                assert(t.pending[a] == s.pending[a]);
                assert(t.pending[b] == s.pending[b]);
                assert(promises(s.pending[a].0.reply, id));
                assert(promises(s.pending[b].0.reply, id));
            }
        },
        _ => {
            let new_id = s.issued as usize;
            let plan = s.plan_for(command);
            let read = command.read_ids();
            assert(t.issued >= s.issued);
            assert forall|k: usize| #[trigger] t.storage.contains_key(k) implies k < t.issued by {
                assert(s.storage.contains_key(k));
            }
            assert forall|i: int| 0 <= i < plan.ids.len() implies #[trigger] plan.ids[i] < t.issued by {
                if i < read.len() {
                    assert(plan.ids[i] == read[i]);
                    assert(s.storage.contains_key(read[i]));
                }
            }
            assert forall|id: usize| #[trigger] promises(plan.reply, id) implies {
                &&& id < t.issued
                &&& !s.answered.contains(id)
                &&& forall|a: usize|
                    s.pending.contains_key(a) ==> !(#[trigger] promises(s.pending[a].0.reply, id))
            } by {
                assert(command.creates_value());
                assert(id == new_id);
                assert forall|a: usize| s.pending.contains_key(a) implies !(#[trigger] promises(
                    s.pending[a].0.reply,
                    id,
                )) by {
                    if promises(s.pending[a].0.reply, id) {
                        assert(id < s.issued);
                    }
                }
            }
            if command.is_async() {
                let new_async = s.async_issued as usize;
                assert forall|a: usize| #[trigger] t.pending.contains_key(a) implies a < t.async_issued by {
                    if a != new_async {
                        assert(s.pending.contains_key(a));
                    }
                }
                assert forall|a: usize, i: int|
                    t.pending.contains_key(a) && 0 <= i < t.pending[a].0.ids.len() implies #[trigger] t.pending[a].0.ids[i]
                    < t.issued by {
                    if a != new_async {
                        assert(s.pending.contains_key(a));
                        assert(s.pending[a].0.ids[i] < s.issued);
                    } else {
                        assert(t.pending[a].0 == plan);
                    }
                }
                assert forall|a: usize, id: usize|
                    t.pending.contains_key(a) && #[trigger] promises(t.pending[a].0.reply, id) implies id
                    < t.issued && !t.answered.contains(id) by {
                    if a != new_async {
                        assert(s.pending.contains_key(a));
                        assert(t.pending[a] == s.pending[a]);
                    } else {
                        assert(promises(plan.reply, id));
                    }
                }
                assert forall|a: usize, b: usize, id: usize|
                    t.pending.contains_key(a) && t.pending.contains_key(b) && #[trigger] promises(
                        t.pending[a].0.reply,
                        id,
                    ) && #[trigger] promises(t.pending[b].0.reply, id) implies a == b by {
                    if a != new_async && b != new_async {
                        assert(t.pending[a] == s.pending[a]);
                        assert(t.pending[b] == s.pending[b]);
                        assert(promises(s.pending[a].0.reply, id));
                        assert(promises(s.pending[b].0.reply, id));
                    } else if a == new_async && b != new_async {
                        assert(promises(plan.reply, id));
                        assert(t.pending[b] == s.pending[b]);
                        assert(s.pending.contains_key(b));
                        assert(promises(s.pending[b].0.reply, id));
                    } else if a != new_async && b == new_async {
                        assert(promises(plan.reply, id));
                        assert(t.pending[a] == s.pending[a]);
                        assert(s.pending.contains_key(a));
                        assert(promises(s.pending[a].0.reply, id));
                    }
                }
            } else {
                assert forall|a: usize, i: int|
                    t.pending.contains_key(a) && 0 <= i < t.pending[a].0.ids.len() implies #[trigger] t.pending[a].0.ids[i]
                    < t.issued by {
                    assert(s.pending[a].0.ids[i] < s.issued);
                }
                assert(t.in_flight == Some(plan));
                assert(t.in_flight_ok(plan));
            }
        },
    }
}

/// Finishing the job in flight keeps the server well formed.
pub proof fn lemma_finished_keeps_wf<V, N>(s: ServerState<V, N>, outputs: Seq<V>)
    requires
        s.wf(),
        s.in_flight is Some,
    ensures
        s.finished(outputs).wf(),
        s.finished(outputs).in_flight is None,
{
    let plan = s.in_flight->0;
    let t = s.finished(outputs);
    assert(s.in_flight_ok(plan));
    lemma_saved_bounded(s.storage, plan.ids, outputs, s.issued);
    assert forall|id: usize| #[trigger] t.answered.contains(id) implies id < t.issued by {
        if !s.answered.contains(id) {
            assert(promises(plan.reply, id));
        }
    }
    assert forall|a: usize, id: usize|
        t.pending.contains_key(a) && #[trigger] promises(t.pending[a].0.reply, id) implies id
        < t.issued && !t.answered.contains(id) by {
        if promises(plan.reply, id) {
            assert(!promises(s.pending[a].0.reply, id));
        }
    }
}

/// The server a program starts with is well formed.
pub proof fn lemma_initial_wf<V, N>()
    ensures
        ServerState::<V, N>::initial().wf(),
{
}

/// A value that a command creates is saved under an id that no stored value
/// has and that no pending job will write; ids are handed out in increasing
/// order, so it is never handed out again.
pub proof fn lemma_created_id_is_fresh<V, N>(s: ServerState<V, N>, command: ServerCommands<V, N>)
    requires
        s.wf(),
        s.accepts(command),
        command.creates_value(),
    ensures
        s.plan_for(command).reply == Reply::NewId(s.issued as usize),
        !s.storage.contains_key(s.issued as usize),
        !s.answered.contains(s.issued as usize),
        forall|a: usize, i: int|
            s.pending.contains_key(a) && 0 <= i < s.pending[a].0.ids.len()
                ==> #[trigger] s.pending[a].0.ids[i] != s.issued as usize,
        s.next(command).issued == s.issued + 1,
{
    assert forall|a: usize, i: int|
        s.pending.contains_key(a) && 0 <= i < s.pending[a].0.ids.len()
            implies #[trigger] s.pending[a].0.ids[i] != s.issued as usize by {
        assert(s.pending[a].0.ids[i] < s.issued);
    }
}

/// No command hands an id out twice: the next id to hand out never goes back,
/// and neither does the next background job id.
pub proof fn lemma_ids_never_go_back<V, N>(s: ServerState<V, N>, command: ServerCommands<V, N>)
    ensures
        s.next(command).issued >= s.issued,
        s.next(command).async_issued >= s.async_issued,
{
}

/// A background job gets an id that no pending job has.
pub proof fn lemma_async_id_is_fresh<V, N>(s: ServerState<V, N>)
    requires
        s.wf(),
        s.async_issued < usize::MAX,
    ensures
        !s.pending.contains_key(s.async_issued as usize),
{
}

/// Creating a value saves what the closure hands back under the new id and
/// answers with that id; nothing else changes.
pub proof fn lemma_initialize_saves_result<V, N>(
    s: ServerState<V, N>,
    undefined: V,
    notifier: N,
    created: V,
)
    requires
        s.wf(),
        s.accepts(ServerCommands::Initialize(undefined, notifier)),
    ensures
        ({
            let command = ServerCommands::Initialize(undefined, notifier);
            let plan = s.plan_for(command);
            let t = s.next(command).finished(seq![created]);
            &&& plan.reply == Reply::NewId(s.issued as usize)
            &&& t.storage == s.storage.insert(s.issued as usize, created)
            &&& t.issued == s.issued + 1
            &&& t.pending == s.pending
            &&& t.answered == s.answered.insert(s.issued as usize)
            &&& t.in_flight is None
        }),
{
    let command = ServerCommands::<V, N>::Initialize(undefined, notifier);
    let plan = s.plan_for(command);
    assert(plan.ids =~= Seq::<usize>::empty().push(s.issued as usize));
    lemma_saved_push(s.storage, Seq::empty(), Seq::empty(), s.issued as usize, created);
    assert(seq![created] =~= Seq::<V>::empty().push(created));
}

/// The value that a closure run on one stored value hands back is the value
/// then stored under its id; nothing else changes.
pub proof fn lemma_use_saves_result<V, N>(s: ServerState<V, N>, id: usize, notifier: N, result: V)
    requires
        s.wf(),
        s.accepts(ServerCommands::Use(id, notifier)),
    ensures
        ({
            let command = ServerCommands::Use(id, notifier);
            let plan = s.plan_for(command);
            let t = s.next(command).finished(seq![result]);
            &&& plan.reply == Reply::Done
            &&& t.storage == s.storage.insert(id, result)
            &&& t.issued == s.issued
            &&& t.pending == s.pending
            &&& t.answered == s.answered
            &&& t.in_flight is None
        }),
{
    let command = ServerCommands::<V, N>::Use(id, notifier);
    let plan = s.plan_for(command);
    assert(plan.ids =~= Seq::<usize>::empty().push(id));
    lemma_saved_push(s.storage, Seq::empty(), Seq::empty(), id, result);
    assert(seq![result] =~= Seq::<V>::empty().push(result));
}

/// A closure run on two stored values saves its first two results under
/// their ids, in that order (so with one id twice, the second result stays),
/// and its third under a new id, which is the answer.
pub proof fn lemma_use_two_saves_results<V, N>(
    s: ServerState<V, N>,
    id1: usize,
    id2: usize,
    notifier: N,
    after_one: V,
    after_two: V,
    result: V,
)
    requires
        s.wf(),
        s.accepts(ServerCommands::UseTwo(id1, id2, notifier)),
    ensures
        ({
            let command = ServerCommands::UseTwo(id1, id2, notifier);
            let plan = s.plan_for(command);
            let new_id = s.issued as usize;
            let t = s.next(command).finished(seq![after_one, after_two, result]);
            &&& plan.reply == Reply::NewId(new_id)
            &&& !s.storage.contains_key(new_id)
            &&& t.storage == s.storage.insert(id1, after_one).insert(id2, after_two).insert(
                new_id,
                result,
            )
            &&& t.issued == s.issued + 1
            &&& t.pending == s.pending
            &&& t.answered == s.answered.insert(new_id)
            &&& t.in_flight is None
        }),
{
    let command = ServerCommands::<V, N>::UseTwo(id1, id2, notifier);
    let plan = s.plan_for(command);
    let new_id = s.issued as usize;
    lemma_created_id_is_fresh(s, command);
    let e_ids = Seq::<usize>::empty();
    let e_values = Seq::<V>::empty();
    lemma_saved_push(s.storage, e_ids, e_values, id1, after_one);
    lemma_saved_push(s.storage, e_ids.push(id1), e_values.push(after_one), id2, after_two);
    lemma_saved_push(
        s.storage,
        e_ids.push(id1).push(id2),
        e_values.push(after_one).push(after_two),
        new_id,
        result,
    );
    assert(plan.ids =~= e_ids.push(id1).push(id2).push(new_id));
    assert(seq![after_one, after_two, result] =~= e_values.push(after_one).push(after_two).push(
        result,
    ));
}

/// A closure run on many stored values: each of its results is saved under
/// the id at the same place, unless that id comes again later; the result
/// after them is saved under the new id, which is the answer; when the
/// closure hands back no such result, nothing is stored under the new id;
/// every other id keeps its value.
pub proof fn lemma_use_many_saves_results<V, N>(
    s: ServerState<V, N>,
    id: usize,
    others: Vec<usize>,
    notifier: N,
    results: Seq<V>,
)
    requires
        s.wf(),
        s.accepts(ServerCommands::UseMany(id, others, notifier)),
    ensures
        ({
            let command = ServerCommands::UseMany(id, others, notifier);
            let read = command.read_ids();
            let plan = s.plan_for(command);
            let new_id = s.issued as usize;
            let t = s.next(command).finished(results);
            &&& read == seq![id] + others@
            &&& plan.reply == Reply::NewId(new_id)
            &&& !s.storage.contains_key(new_id)
            &&& forall|i: int|
                0 <= i < read.len() && i < results.len() && (forall|j: int|
                    i < j < read.len() && j < results.len() ==> read[j] != read[i]) ==> {
                    &&& t.storage.contains_key(#[trigger] read[i])
                    &&& t.storage[read[i]] == results[i]
                }
            &&& results.len() > read.len() ==> t.storage.contains_key(new_id) && t.storage[new_id]
                == results[read.len() as int]
            &&& results.len() <= read.len() ==> !t.storage.contains_key(new_id)
            &&& forall|k: usize|
                k != new_id && !read.contains(k) ==> (#[trigger] t.storage.contains_key(k)
                    == s.storage.contains_key(k) && t.storage[k] == s.storage[k])
            &&& t.issued == s.issued + 1
            &&& t.pending == s.pending
            &&& t.answered == s.answered.insert(new_id)
            &&& t.in_flight is None
        }),
{
    let command = ServerCommands::<V, N>::UseMany(id, others, notifier);
    let read = command.read_ids();
    let plan = s.plan_for(command);
    let new_id = s.issued as usize;
    lemma_created_id_is_fresh(s, command);
    let ids = plan.ids;
    assert(ids == read.push(new_id));
    assert forall|i: int|
        0 <= i < read.len() && i < results.len() && (forall|j: int|
            i < j < read.len() && j < results.len() ==> read[j] != read[i]) implies {
        &&& saved(s.storage, ids, results).contains_key(#[trigger] read[i])
        &&& saved(s.storage, ids, results)[read[i]] == results[i]
    } by {
        assert(s.storage.contains_key(read[i]));
        assert forall|j: int| i < j < ids.len() && j < results.len() implies ids[j] != ids[i] by {
            if j < read.len() {
                assert(ids[j] == read[j]);
            } else {
                assert(ids[j] == new_id);
            }
        }
        lemma_saved_last_write(s.storage, ids, results, i);
    }
    if results.len() > read.len() {
        lemma_saved_last_write(s.storage, ids, results, read.len() as int);
    } else {
        assert forall|i: int| 0 <= i < ids.len() && i < results.len() implies ids[i] != new_id by {
            assert(ids[i] == read[i]);
            assert(s.storage.contains_key(read[i]));
        }
        lemma_saved_untouched(s.storage, ids, results, new_id);
    }
    assert forall|k: usize| k != new_id && !read.contains(k) implies (#[trigger] saved(
        s.storage,
        ids,
        results,
    ).contains_key(k) == s.storage.contains_key(k) && saved(s.storage, ids, results)[k]
        == s.storage[k]) by {
        assert forall|i: int| 0 <= i < ids.len() && i < results.len() implies ids[i] != k by {
            if i < read.len() {
                assert(ids[i] == read[i]);
            }
        }
        lemma_saved_untouched(s.storage, ids, results, k);
    }
}

/// Forgetting a value removes it and nothing else.
pub proof fn lemma_deallocate_forgets<V, N>(s: ServerState<V, N>, id: usize)
    ensures
        s.next(ServerCommands::Deallocate(id)).storage == s.storage.remove(id),
        !s.next(ServerCommands::Deallocate(id)).storage.contains_key(id),
        s.next(ServerCommands::Deallocate(id)).issued == s.issued,
        s.next(ServerCommands::Deallocate(id)).pending == s.pending,
{
}

/// Running a closure in the background and reporting its results leaves the
/// values, the ids handed out and the pending jobs as running it at once
/// would, and owes its client the same reply through the same handle.
pub proof fn lemma_background_matches_foreground<V, N>(
    s: ServerState<V, N>,
    command: ServerCommands<V, N>,
    results: Seq<V>,
)
    requires
        s.wf(),
        s.accepts(command),
        command.is_async(),
    ensures
        ({
            let async_id = s.async_issued as usize;
            let started = s.next(command);
            let done = started.completed(async_id, results);
            let foreground = command.in_foreground();
            let plan = s.plan_for(foreground);
            let direct = s.next(foreground).finished(results);
            &&& s.accepts(foreground)
            &&& !foreground.is_async()
            &&& started.pending.contains_key(async_id)
            &&& started.pending[async_id] == (plan, foreground.notifier())
            &&& done.storage == direct.storage
            &&& done.issued == direct.issued
            &&& done.pending == s.pending
            &&& direct.pending == s.pending
            &&& done.async_issued == s.async_issued + 1
            &&& done.answered == direct.answered
            &&& done.in_flight == direct.in_flight
        }),
{
    let async_id = s.async_issued as usize;
    let started = s.next(command);
    assert(!s.pending.contains_key(async_id));
    assert(started.pending.remove(async_id) =~= s.pending);
    let foreground = command.in_foreground();
    assert(foreground.read_ids() == command.read_ids());
}

/// While a job handed out to run at once has not finished, the server takes
/// no other command: reading the values, running the closure and saving its
/// results is one step for every other client.
pub proof fn lemma_job_in_flight_blocks<V, N>(s: ServerState<V, N>, command: ServerCommands<V, N>)
    requires
        s.in_flight is Some,
    ensures
        !s.accepts(command),
{
}

/// Closures run on one value one after another each see the result of the
/// one before: the second is run on a clone of what the first handed back,
/// and what the second hands back is what stays stored; no update is lost.
pub proof fn lemma_uses_compose<V: Clone, N>(
    s: ServerState<V, N>,
    id: usize,
    first: N,
    second: N,
    first_result: V,
    second_result: V,
    second_inputs: Seq<V>,
)
    requires
        s.wf(),
        s.accepts(ServerCommands::Use(id, first)),
    ensures
        ({
            let t = s.next(ServerCommands::Use(id, first)).finished(seq![first_result]);
            &&& t.wf()
            &&& t.accepts(ServerCommands::Use(id, second))
            &&& inputs_of(ServerCommands::<V, N>::Use(id, second), t.storage, second_inputs)
                ==> second_inputs.len() == 1 && cloned(first_result, second_inputs[0])
            &&& t.next(ServerCommands::Use(id, second)).finished(seq![second_result]).storage
                == s.storage.insert(id, second_result)
        }),
{
    let c1 = ServerCommands::<V, N>::Use(id, first);
    let c2 = ServerCommands::<V, N>::Use(id, second);
    lemma_next_keeps_wf(s, c1);
    lemma_finished_keeps_wf(s.next(c1), seq![first_result]);
    lemma_use_saves_result(s, id, first, first_result);
    let t = s.next(c1).finished(seq![first_result]);
    assert(s.storage.contains_key(c1.read_ids()[0]));
    assert(t.storage.contains_key(c2.read_ids()[0]));
    lemma_use_saves_result(t, id, second, second_result);
    assert(t.storage.insert(id, second_result) =~= s.storage.insert(id, second_result));
    if inputs_of(c2, t.storage, second_inputs) {
        assert(cloned(t.storage[c2.read_ids()[0]], second_inputs[0]));
    }
}

/// A closure that hands back the value it was given leaves the stored values
/// as they were, for every value type whose clone equals its source.
pub proof fn lemma_identity_closure_keeps_values<V: Clone, N>(
    s: ServerState<V, N>,
    id: usize,
    notifier: N,
    inputs: Seq<V>,
)
    requires
        s.wf(),
        s.accepts(ServerCommands::Use(id, notifier)),
        inputs_of(ServerCommands::<V, N>::Use(id, notifier), s.storage, inputs),
        forall|a: V, b: V| #[trigger] vstd::pervasive::strictly_cloned(a, b) ==> a == b,
    ensures
        s.next(ServerCommands::Use(id, notifier)).finished(inputs).storage == s.storage,
{
    let command = ServerCommands::<V, N>::Use(id, notifier);
    assert(command.read_ids()[0] == id);
    assert(cloned(s.storage[id], inputs[0]));
    assert(inputs[0] == s.storage[id]);
    assert(inputs =~= seq![inputs[0]]);
    lemma_use_saves_result(s, id, notifier, inputs[0]);
    assert(s.storage.contains_key(command.read_ids()[0]));
    assert(s.storage.insert(id, s.storage[id]) =~= s.storage);
}

/// A background job's plan and reply handle are fixed when it starts: no
/// other command and no finished job changes them.
pub proof fn lemma_pending_job_is_fixed<V, N>(
    s: ServerState<V, N>,
    command: ServerCommands<V, N>,
    async_id: usize,
)
    requires
        s.wf(),
        s.accepts(command),
        s.pending.contains_key(async_id),
        !(command matches ServerCommands::AsyncExecutionComplete(a, _) && a == async_id),
    ensures
        s.next(command).pending.contains_key(async_id),
        s.next(command).pending[async_id] == s.pending[async_id],
        s.next(command).finished(Seq::empty()).pending == s.next(command).pending,
{
}

/// A background job saves its results at the ids fixed when it started, so a
/// change made to such a value while it runs is overwritten when it reports.
pub proof fn lemma_background_result_overwrites<V, N>(
    s: ServerState<V, N>,
    id: usize,
    job: N,
    other: N,
    meanwhile: V,
    result: V,
)
    requires
        s.wf(),
        s.accepts(ServerCommands::UseAsync(id, job)),
    ensures
        ({
            let async_id = s.async_issued as usize;
            let started = s.next(ServerCommands::UseAsync(id, job));
            let changed = started.next(ServerCommands::Use(id, other)).finished(seq![meanwhile]);
            let done = changed.completed(async_id, seq![result]);
            &&& started.accepts(ServerCommands::Use(id, other))
            &&& changed.storage[id] == meanwhile
            &&& changed.pending.contains_key(async_id)
            &&& done.storage == s.storage.insert(id, result)
        }),
{
    let async_id = s.async_issued as usize;
    let c1 = ServerCommands::<V, N>::UseAsync(id, job);
    let c2 = ServerCommands::<V, N>::Use(id, other);
    let started = s.next(c1);
    lemma_next_keeps_wf(s, c1);
    assert(s.storage.contains_key(c1.read_ids()[0]));
    assert(started.storage.contains_key(c2.read_ids()[0]));
    lemma_use_saves_result(started, id, other, meanwhile);
    let changed = started.next(c2).finished(seq![meanwhile]);
    assert(changed.pending[async_id].0.ids =~= Seq::<usize>::empty().push(id));
    lemma_saved_push(changed.storage, Seq::empty(), Seq::empty(), id, result);
    assert(seq![result] =~= Seq::<V>::empty().push(result));
    assert(changed.storage.insert(id, result) =~= s.storage.insert(id, result));
}

/// One thing that happens to a server: it takes a command, or the job in
/// flight hands back its results.
pub ghost enum Event<V, N> {
    Take(ServerCommands<V, N>),
    Finish(Seq<V>),
}

/// The server can let the event happen.
pub open spec fn admits<V, N>(s: ServerState<V, N>, event: Event<V, N>) -> bool {
    match event {
        Event::Take(command) => s.accepts(command),
        Event::Finish(_) => s.in_flight is Some,
    }
}

/// The state after the event.
pub open spec fn after<V, N>(s: ServerState<V, N>, event: Event<V, N>) -> ServerState<V, N> {
    match event {
        Event::Take(command) => s.next(command),
        Event::Finish(outputs) => s.finished(outputs),
    }
}

/// What a client is answered when the event happens: a reported background
/// job and a finished job answer their plan's reply; nothing else answers.
pub open spec fn reply_of<V, N>(s: ServerState<V, N>, event: Event<V, N>) -> Reply {
    match event {
        Event::Take(ServerCommands::AsyncExecutionComplete(async_id, _)) => s.pending[async_id].0.reply,
        Event::Finish(_) => s.in_flight->0.reply,
        _ => Reply::Done,
    }
}

/// The server lets every event of the run happen, in order.
pub open spec fn runs<V, N>(s: ServerState<V, N>, events: Seq<Event<V, N>>) -> bool
    decreases events.len(),
{
    events.len() == 0 || (admits(s, events[0]) && runs(after(s, events[0]), events.drop_first()))
}

/// The state at the end of the run.
pub open spec fn end_of_run<V, N>(s: ServerState<V, N>, events: Seq<Event<V, N>>) -> ServerState<
    V,
    N,
>
    decreases events.len(),
{
    if events.len() == 0 {
        s
    } else {
        end_of_run(after(s, events[0]), events.drop_first())
    }
}

/// The ids that clients are answered with during the run, in order.
pub open spec fn ids_answered<V, N>(s: ServerState<V, N>, events: Seq<Event<V, N>>) -> Seq<usize>
    decreases events.len(),
{
    if events.len() == 0 {
        Seq::empty()
    } else {
        let rest = ids_answered(after(s, events[0]), events.drop_first());
        match reply_of(s, events[0]) {
            Reply::NewId(id) => seq![id] + rest,
            Reply::Done => rest,
        }
    }
}

/// One event keeps the server well formed, never takes a counter back, and
/// answers, if at all, with an id not answered before.
pub proof fn lemma_event_keeps_wf<V, N>(s: ServerState<V, N>, event: Event<V, N>)
    requires
        s.wf(),
        admits(s, event),
    ensures
        after(s, event).wf(),
        after(s, event).issued >= s.issued,
        after(s, event).async_issued >= s.async_issued,
        after(s, event).answered == record_reply(s.answered, reply_of(s, event)),
        reply_of(s, event) matches Reply::NewId(id) ==> !s.answered.contains(id),
{
    match event {
        Event::Take(command) => {
            lemma_next_keeps_wf(s, command);
            if let ServerCommands::AsyncExecutionComplete(async_id, _) = command {
                if let Reply::NewId(id) = s.pending[async_id].0.reply {
                    assert(promises(s.pending[async_id].0.reply, id));
                }
            }
        },
        Event::Finish(outputs) => {
            lemma_finished_keeps_wf(s, outputs);
            let plan = s.in_flight->0;
            assert(s.in_flight_ok(plan));
            if let Reply::NewId(id) = plan.reply {
                assert(promises(plan.reply, id));
            }
        },
    }
}

/// Over any run from a well-formed server, the server stays well formed, its
/// counters never go back, and every id it answers with differs from every id
/// answered before it, in the run or earlier.
pub proof fn lemma_run_answers_distinct_ids<V, N>(s: ServerState<V, N>, events: Seq<Event<V, N>>)
    requires
        s.wf(),
        runs(s, events),
    ensures
        ({
            let ids = ids_answered(s, events);
            let t = end_of_run(s, events);
            &&& t.wf()
            &&& t.issued >= s.issued
            &&& t.async_issued >= s.async_issued
            &&& ids.no_duplicates()
            &&& forall|i: int| 0 <= i < ids.len() ==> !s.answered.contains(#[trigger] ids[i])
            &&& t.answered == s.answered + ids.to_set()
        }),
    decreases events.len(),
{
    let ids = ids_answered(s, events);
    if events.len() == 0 {
        assert(s.answered + ids.to_set() =~= s.answered);
    } else {
        let e = events[0];
        let next = after(s, e);
        lemma_event_keeps_wf(s, e);
        lemma_run_answers_distinct_ids(next, events.drop_first());
        let rest = ids_answered(next, events.drop_first());
        let t = end_of_run(next, events.drop_first());
        assert(end_of_run(s, events) == t);
        match reply_of(s, e) {
            Reply::NewId(id) => {
                assert(ids == seq![id] + rest);
                assert(next.answered.contains(id));
                assert forall|i: int| 0 <= i < ids.len() implies !s.answered.contains(
                    #[trigger] ids[i],
                ) by {
                    if i > 0 {
                        assert(ids[i] == rest[i - 1]);
                        assert(!next.answered.contains(rest[i - 1]));
                    }
                }
                assert forall|i: int, j: int|
                    0 <= i < ids.len() && 0 <= j < ids.len() && i != j implies ids[i] != ids[j] by {
                    if i == 0 {
                        assert(ids[j] == rest[j - 1]);
                        assert(!next.answered.contains(rest[j - 1]));
                    } else if j == 0 {
                        assert(ids[i] == rest[i - 1]);
                        assert(!next.answered.contains(rest[i - 1]));
                    } else {
                        assert(ids[i] == rest[i - 1]);
                        assert(ids[j] == rest[j - 1]);
                    }
                }
                assert forall|x: usize| ids.contains(x) <==> x == id || rest.contains(x) by {
                    if ids.contains(x) {
                        let k = choose|k: int| 0 <= k < ids.len() && ids[k] == x;
                        if k > 0 {
                            assert(rest[k - 1] == x);
                        }
                    }
                    if x == id {
                        assert(ids[0] == x);
                    }
                    if rest.contains(x) {
                        let k = choose|k: int| 0 <= k < rest.len() && rest[k] == x;
                        assert(ids[k + 1] == x);
                    }
                }
                assert(t.answered =~= s.answered + ids.to_set());
            },
            Reply::Done => {
                assert(ids == rest);
                assert(t.answered =~= s.answered + ids.to_set());
            },
        }
    }
}

/// The values that an action hands to a command's closure.
pub open spec fn closure_inputs<V, N>(action: Action<V, N>) -> Seq<V> {
    match action {
        Action::Execute(job) => job.inputs@,
        Action::Spawn(_, inputs) => inputs@,
        _ => Seq::empty(),
    }
}

/// A command's closure gets, run at once or in the background, the value it
/// was given to create from, or one clone of the value stored under each id
/// it names, in the order named: the first id of a command over many values
/// comes first, then the listed ones, however many there are.
pub proof fn lemma_closure_inputs<V: Clone, N>(
    s: ServerState<V, N>,
    command: ServerCommands<V, N>,
    action: Action<V, N>,
)
    requires
        s.answers(command, action),
        command.runs_closure(),
    ensures
        ({
            let inputs = closure_inputs(action);
            match command {
                ServerCommands::Initialize(v, _) => inputs == seq![v],
                ServerCommands::InitializeAsync(v, _) => inputs == seq![v],
                ServerCommands::Use(id, _) => inputs.len() == 1 && cloned(s.storage[id], inputs[0]),
                ServerCommands::UseAsync(id, _) => inputs.len() == 1 && cloned(
                    s.storage[id],
                    inputs[0],
                ),
                ServerCommands::UseTwo(id1, id2, _) => inputs.len() == 2 && cloned(
                    s.storage[id1],
                    inputs[0],
                ) && cloned(s.storage[id2], inputs[1]),
                ServerCommands::UseTwoAsync(id1, id2, _) => inputs.len() == 2 && cloned(
                    s.storage[id1],
                    inputs[0],
                ) && cloned(s.storage[id2], inputs[1]),
                ServerCommands::UseMany(id, others, _) => {
                    &&& inputs.len() == others@.len() + 1
                    &&& cloned(s.storage[id], inputs[0])
                    &&& forall|i: int|
                        0 <= i < others@.len() ==> cloned(
                            s.storage[#[trigger] others@[i]],
                            inputs[i + 1],
                        )
                },
                ServerCommands::UseManyAsync(id, others, _) => {
                    &&& inputs.len() == others@.len() + 1
                    &&& cloned(s.storage[id], inputs[0])
                    &&& forall|i: int|
                        0 <= i < others@.len() ==> cloned(
                            s.storage[#[trigger] others@[i]],
                            inputs[i + 1],
                        )
                },
                _ => true,
            }
        }),
{
    let inputs = closure_inputs(action);
    let read = command.read_ids();
    match command {
        ServerCommands::Use(id, _) => {
            assert(read[0] == id);
        },
        ServerCommands::UseAsync(id, _) => {
            assert(read[0] == id);
        },
        ServerCommands::UseTwo(id1, id2, _) => {
            assert(read[0] == id1 && read[1] == id2);
        },
        ServerCommands::UseTwoAsync(id1, id2, _) => {
            assert(read[0] == id1 && read[1] == id2);
        },
        ServerCommands::UseMany(id, others, _) => {
            assert(read[0] == id);
            assert forall|i: int| 0 <= i < others@.len() implies cloned(
                s.storage[#[trigger] others@[i]],
                inputs[i + 1],
            ) by {
                assert(read[i + 1] == others@[i]);
            }
        },
        ServerCommands::UseManyAsync(id, others, _) => {
            assert(read[0] == id);
            assert forall|i: int| 0 <= i < others@.len() implies cloned(
                s.storage[#[trigger] others@[i]],
                inputs[i + 1],
            ) by {
                assert(read[i + 1] == others@[i]);
            }
        },
        _ => {},
    }
}

/// A background job that reports saves each reported value under the id at
/// the same place in the plan fixed when it started (unless that id comes
/// again later in the plan), leaves every id outside the plan as it was,
/// whatever was created or changed while it ran, and is no longer pending.
pub proof fn lemma_completion_saves_at_plan_ids<V, N>(
    t: ServerState<V, N>,
    async_id: usize,
    outputs: Vec<V>,
)
    requires
        t.wf(),
        t.accepts(ServerCommands::AsyncExecutionComplete(async_id, outputs)),
    ensures
        ({
            let ids = t.pending[async_id].0.ids;
            let u = t.next(ServerCommands::AsyncExecutionComplete(async_id, outputs));
            &&& forall|i: int|
                0 <= i < ids.len() && i < outputs@.len() && (forall|j: int|
                    i < j < ids.len() && j < outputs@.len() ==> ids[j] != ids[i]) ==> {
                    &&& u.storage.contains_key(#[trigger] ids[i])
                    &&& u.storage[ids[i]] == outputs@[i]
                }
            &&& forall|k: usize|
                #![trigger u.storage.contains_key(k)]
                #![trigger u.storage[k]]
                (forall|i: int| 0 <= i < ids.len() && i < outputs@.len() ==> ids[i] != k) ==> {
                    &&& u.storage.contains_key(k) == t.storage.contains_key(k)
                    &&& u.storage[k] == t.storage[k]
                }
            &&& u.pending == t.pending.remove(async_id)
            &&& u.issued == t.issued
            &&& u.async_issued == t.async_issued
            &&& u.answered == record_reply(t.answered, t.pending[async_id].0.reply)
        }),
{
    let ids = t.pending[async_id].0.ids;
    let u = t.next(ServerCommands::AsyncExecutionComplete(async_id, outputs));
    assert(u.storage == saved(t.storage, ids, outputs@));
    assert forall|i: int|
        0 <= i < ids.len() && i < outputs@.len() && (forall|j: int|
            i < j < ids.len() && j < outputs@.len() ==> ids[j] != ids[i]) implies {
        &&& u.storage.contains_key(#[trigger] ids[i])
        &&& u.storage[ids[i]] == outputs@[i]
    } by {
        lemma_saved_last_write(t.storage, ids, outputs@, i);
    }
    assert forall|k: usize|
        #![trigger u.storage.contains_key(k)]
        #![trigger u.storage[k]]
        (forall|i: int| 0 <= i < ids.len() && i < outputs@.len() ==> ids[i] != k) implies {
        &&& u.storage.contains_key(k) == t.storage.contains_key(k)
        &&& u.storage[k] == t.storage[k]
    } by {
        lemma_saved_untouched(t.storage, ids, outputs@, k);
    }
}

/// A value created in the background is saved, when its job reports, under
/// the id promised when the job started, and nothing else changes, whatever
/// was created while it ran.
pub proof fn lemma_initialize_async_saves_at_promised_id<V: Clone, N>(
    s: ServerState<V, N>,
    undefined: V,
    notifier: N,
    t: ServerState<V, N>,
    outputs: Vec<V>,
    created: V,
    action: Action<V, N>,
)
    requires
        s.wf(),
        s.accepts(ServerCommands::InitializeAsync(undefined, notifier)),
        t.wf(),
        t.pending.contains_key(s.async_issued as usize),
        t.pending[s.async_issued as usize] == s.next(
            ServerCommands::InitializeAsync(undefined, notifier),
        ).pending[s.async_issued as usize],
        t.accepts(ServerCommands::AsyncExecutionComplete(s.async_issued as usize, outputs)),
        outputs@ == seq![created],
    ensures
        ({
            let promised = s.issued as usize;
            let async_id = s.async_issued as usize;
            let u = t.next(ServerCommands::AsyncExecutionComplete(async_id, outputs));
            &&& s.next(ServerCommands::InitializeAsync(undefined, notifier)).pending[async_id].0.reply
                == Reply::NewId(promised)
            &&& t.answers(ServerCommands::AsyncExecutionComplete(async_id, outputs), action)
                ==> action == Action::<V, N>::Respond(notifier, Reply::NewId(promised))
            &&& u.storage == t.storage.insert(promised, created)
        }),
{
    let promised = s.issued as usize;
    let async_id = s.async_issued as usize;
    let plan = t.pending[async_id].0;
    assert(plan.ids =~= Seq::<usize>::empty().push(promised));
    lemma_saved_push(t.storage, Seq::empty(), Seq::empty(), promised, created);
    assert(outputs@ =~= Seq::<V>::empty().push(created));
}

/// A closure run in the background on one stored value: when it reports,
/// what it handed back is stored under that value's id, nothing else changes,
/// and its client is answered `Done`.
pub proof fn lemma_use_async_saves_result<V: Clone, N>(
    s: ServerState<V, N>,
    id: usize,
    notifier: N,
    outputs: Vec<V>,
    result: V,
    action: Action<V, N>,
)
    requires
        s.wf(),
        s.accepts(ServerCommands::UseAsync(id, notifier)),
        outputs@ == seq![result],
    ensures
        ({
            let async_id = s.async_issued as usize;
            let started = s.next(ServerCommands::UseAsync(id, notifier));
            let done = started.next(ServerCommands::AsyncExecutionComplete(async_id, outputs));
            &&& started.accepts(ServerCommands::AsyncExecutionComplete(async_id, outputs))
            &&& started.pending[async_id].0.reply == Reply::Done
            &&& started.answers(ServerCommands::AsyncExecutionComplete(async_id, outputs), action)
                ==> action == Action::<V, N>::Respond(notifier, Reply::Done)
            &&& done.storage == s.storage.insert(id, result)
            &&& done.issued == s.issued
            &&& done.pending == s.pending
        }),
{
    let async_id = s.async_issued as usize;
    let command = ServerCommands::<V, N>::UseAsync(id, notifier);
    let started = s.next(command);
    assert(!s.pending.contains_key(async_id));
    assert(started.pending.remove(async_id) =~= s.pending);
    assert(started.pending[async_id].0.ids =~= Seq::<usize>::empty().push(id));
    lemma_saved_push(s.storage, Seq::empty(), Seq::empty(), id, result);
    assert(outputs@ =~= Seq::<V>::empty().push(result));
}

/// A closure run in the background on two stored values: when it reports
/// `[x, y, r]`, `x` is stored under the first id, then `y` under the second,
/// then `r` under the new id its client is answered with, exactly as when
/// the closure runs at once.
pub proof fn lemma_use_two_async_saves_results<V: Clone, N>(
    s: ServerState<V, N>,
    id1: usize,
    id2: usize,
    notifier: N,
    outputs: Vec<V>,
    after_one: V,
    after_two: V,
    result: V,
    action: Action<V, N>,
)
    requires
        s.wf(),
        s.accepts(ServerCommands::UseTwoAsync(id1, id2, notifier)),
        outputs@ == seq![after_one, after_two, result],
    ensures
        ({
            let async_id = s.async_issued as usize;
            let new_id = s.issued as usize;
            let started = s.next(ServerCommands::UseTwoAsync(id1, id2, notifier));
            let done = started.next(ServerCommands::AsyncExecutionComplete(async_id, outputs));
            &&& started.accepts(ServerCommands::AsyncExecutionComplete(async_id, outputs))
            &&& started.pending[async_id].0.reply == Reply::NewId(new_id)
            &&& !s.storage.contains_key(new_id)
            &&& started.answers(ServerCommands::AsyncExecutionComplete(async_id, outputs), action)
                ==> action == Action::<V, N>::Respond(notifier, Reply::NewId(new_id))
            &&& done.storage == s.storage.insert(id1, after_one).insert(id2, after_two).insert(
                new_id,
                result,
            )
            &&& done.issued == s.issued + 1
            &&& done.pending == s.pending
            &&& done.answered == s.answered.insert(new_id)
        }),
{
    let async_id = s.async_issued as usize;
    let new_id = s.issued as usize;
    let command = ServerCommands::<V, N>::UseTwoAsync(id1, id2, notifier);
    let started = s.next(command);
    lemma_created_id_is_fresh(s, command);
    assert(!s.pending.contains_key(async_id));
    assert(started.pending.remove(async_id) =~= s.pending);
    let e_ids = Seq::<usize>::empty();
    let e_values = Seq::<V>::empty();
    lemma_saved_push(s.storage, e_ids, e_values, id1, after_one);
    lemma_saved_push(s.storage, e_ids.push(id1), e_values.push(after_one), id2, after_two);
    lemma_saved_push(
        s.storage,
        e_ids.push(id1).push(id2),
        e_values.push(after_one).push(after_two),
        new_id,
        result,
    );
    assert(started.pending[async_id].0.ids =~= e_ids.push(id1).push(id2).push(new_id));
    assert(outputs@ =~= e_values.push(after_one).push(after_two).push(result));
}

} // verus!
