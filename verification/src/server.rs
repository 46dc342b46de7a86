//! The server that keeps the values, hands out their ids and answers commands.

use std::collections::HashMap;

use vstd::prelude::*;

use crate::command::{cloned_from, inputs_of, plan_of, Action, Job, ServerCommands};
use crate::laws::{lemma_finished_keeps_wf, lemma_next_keeps_wf};
use crate::plan::{promises, record_reply, saved, Reply, SavePlan, SavePlanView};

verus! {

broadcast use vstd::std_specs::hash::group_hash_axioms;

/// The mathematical content of a server.
pub ghost struct ServerState<V, N> {
    /// The stored values, by id.
    pub storage: Map<usize, V>,
    /// The next id to hand out.
    pub issued: nat,
    /// The background jobs that have not reported back yet, by their own ids:
    /// where their results go and whom to answer.
    pub pending: Map<usize, (SavePlanView, N)>,
    /// The next background job id to hand out.
    pub async_issued: nat,
    /// The plan of the job handed out to run at once and not finished yet.
    pub in_flight: Option<SavePlanView>,
    /// The ids the server has answered with so far.
    pub answered: Set<usize>,
}

impl<V, N> ServerState<V, N> {
    /// The server a program starts with.
    pub open spec fn initial() -> Self {
        ServerState {
            storage: Map::empty(),
            issued: 0,
            pending: Map::empty(),
            async_issued: 0,
            in_flight: None,
            answered: Set::empty(),
        }
    }

    /// Every stored value and every pending save has an id that was handed
    /// out already, and so does every pending background job.
    pub open spec fn wf(self) -> bool {
        &&& forall|id: usize| #[trigger] self.storage.contains_key(id) ==> id < self.issued
        &&& forall|async_id: usize| #[trigger]
            self.pending.contains_key(async_id) ==> async_id < self.async_issued
        &&& forall|async_id: usize, i: int|
            #![trigger self.pending[async_id].0.ids[i]]
            self.pending.contains_key(async_id) && 0 <= i < self.pending[async_id].0.ids.len()
                ==> self.pending[async_id].0.ids[i] < self.issued
        &&& forall|id: usize| #[trigger] self.answered.contains(id) ==> id < self.issued
        &&& forall|async_id: usize, id: usize|
            self.pending.contains_key(async_id) && #[trigger] promises(
                self.pending[async_id].0.reply,
                id,
            ) ==> id < self.issued && !self.answered.contains(id)
        &&& forall|a: usize, b: usize, id: usize|
            self.pending.contains_key(a) && self.pending.contains_key(b) && #[trigger] promises(
                self.pending[a].0.reply,
                id,
            ) && #[trigger] promises(self.pending[b].0.reply, id) ==> a == b
        &&& (self.in_flight matches Some(plan) ==> self.in_flight_ok(plan))
    }

    /// The job in flight saves only at handed-out ids, and the id it answers
    /// with, if any, was handed out, has not been answered yet and is owed to
    /// no background job.
    pub open spec fn in_flight_ok(self, plan: SavePlanView) -> bool {
        &&& forall|i: int| 0 <= i < plan.ids.len() ==> #[trigger] plan.ids[i] < self.issued
        &&& forall|id: usize| #[trigger]
            promises(plan.reply, id) ==> {
                &&& id < self.issued
                &&& !self.answered.contains(id)
                &&& forall|async_id: usize|
                    self.pending.contains_key(async_id) ==> !(#[trigger] promises(
                        self.pending[async_id].0.reply,
                        id,
                    ))
            }
    }

    /// The command can be carried out: no job handed out is still running, the
    /// values it reads are stored, an id is left for what it creates, and a
    /// completion names a pending job.
    pub open spec fn accepts(self, command: ServerCommands<V, N>) -> bool {
        &&& self.in_flight is None
        &&& forall|i: int|
            0 <= i < command.read_ids().len() ==> self.storage.contains_key(
                #[trigger] command.read_ids()[i],
            )
        &&& command.creates_value() ==> self.issued < usize::MAX
        &&& command.is_async() ==> self.async_issued < usize::MAX
        &&& (command matches ServerCommands::AsyncExecutionComplete(async_id, _)
            ==> self.pending.contains_key(async_id))
    }

    /// Where the results of the command's closure are saved, from this state.
    pub open spec fn plan_for(self, command: ServerCommands<V, N>) -> SavePlanView {
        plan_of(command, self.issued as usize)
    }

    /// The state after the job in flight hands back its results: they are
    /// saved as its plan says and its reply is sent.
    pub open spec fn finished(self, outputs: Seq<V>) -> Self {
        match self.in_flight {
            Some(plan) => ServerState {
                storage: saved(self.storage, plan.ids, outputs),
                in_flight: None,
                answered: record_reply(self.answered, plan.reply),
                ..self
            },
            None => self,
        }
    }

    /// The state after the background job reports its results.
    pub open spec fn completed(self, async_id: usize, outputs: Seq<V>) -> Self {
        ServerState {
            storage: saved(self.storage, self.pending[async_id].0.ids, outputs),
            pending: self.pending.remove(async_id),
            answered: record_reply(self.answered, self.pending[async_id].0.reply),
            ..self
        }
    }

    /// The state after the server takes the command.
    pub open spec fn next(self, command: ServerCommands<V, N>) -> Self {
        match command {
            ServerCommands::Deallocate(id) => ServerState { storage: self.storage.remove(id), ..self },
            ServerCommands::AsyncExecutionComplete(async_id, outputs) => self.completed(
                async_id,
                outputs@,
            ),
            _ => {
                let issued = if command.creates_value() {
                    self.issued + 1
                } else {
                    self.issued
                };
                if command.is_async() {
                    ServerState {
                        issued,
                        pending: self.pending.insert(
                            self.async_issued as usize,
                            (self.plan_for(command), command.notifier()),
                        ),
                        async_issued: self.async_issued + 1,
                        ..self
                    }
                } else {
                    ServerState { issued, in_flight: Some(self.plan_for(command)), ..self }
                }
            },
        }
    }
}

impl<V: Clone, N> ServerState<V, N> {
    /// The action is what the server answers the command with in this state.
    pub open spec fn answers(self, command: ServerCommands<V, N>, action: Action<V, N>) -> bool {
        match command {
            ServerCommands::Deallocate(_) => action is Nothing,
            ServerCommands::AsyncExecutionComplete(async_id, _) => action == Action::<V, N>::Respond(
                self.pending[async_id].1,
                self.pending[async_id].0.reply,
            ),
            _ => if command.is_async() {
                match action {
                    Action::Spawn(async_id, inputs) => {
                        &&& async_id == self.async_issued
                        &&& inputs_of(command, self.storage, inputs@)
                    },
                    _ => false,
                }
            } else {
                match action {
                    Action::Execute(job) => {
                        &&& job.plan@ == self.plan_for(command)
                        &&& job.notifier == command.notifier()
                        &&& inputs_of(command, self.storage, job.inputs@)
                    },
                    _ => false,
                }
            },
        }
    }
}

/// A background job waiting for its results: where they go and whom to answer.
pub struct AwaitingResult<N> {
    pub plan: SavePlan,
    pub js_arc_notifier: N,
}

/// Keeps the values by id and answers the commands sent to it, one at a time.
pub struct JsArcServer<V, N> {
    storage: HashMap<usize, V>,
    issued: usize,
    temp_async_storage: HashMap<usize, AwaitingResult<N>>,
    async_issued: usize,
    job_in_flight: bool,
    in_flight_plan: Ghost<SavePlanView>,
    answered: Ghost<Set<usize>>,
}

impl<V, N> View for JsArcServer<V, N> {
    type V = ServerState<V, N>;

    closed spec fn view(&self) -> ServerState<V, N> {
        ServerState {
            storage: self.storage@,
            issued: self.issued as nat,
            pending: self.temp_async_storage@.map_values(
                |a: AwaitingResult<N>| (a.plan@, a.js_arc_notifier),
            ),
            async_issued: self.async_issued as nat,
            in_flight: if self.job_in_flight {
                Some(self.in_flight_plan@)
            } else {
                None
            },
            answered: self.answered@,
        }
    }
}

impl<V: Clone, N> JsArcServer<V, N> {
    /// A server with nothing stored and no id handed out.
    pub fn new() -> (server: Self)
        ensures
            server@ == ServerState::<V, N>::initial(),
            server@.wf(),
    {
        let server = JsArcServer {
            storage: HashMap::new(),
            issued: 0,
            temp_async_storage: HashMap::new(),
            async_issued: 0,
            job_in_flight: false,
            in_flight_plan: Ghost(SavePlanView { ids: Seq::empty(), reply: Reply::Done }),
            answered: Ghost(Set::empty()),
        };
        proof {
            assert(server@.pending =~= Map::empty());
        }
        server
    }

    /// Hands out the next value id.
    pub fn claim_id(&mut self) -> (id: usize)
        requires
            old(self)@.issued < usize::MAX,
        ensures
            id == old(self)@.issued,
            final(self)@ == (ServerState { issued: old(self)@.issued + 1, ..old(self)@ }),
    {
        let id = self.issued;
        self.issued = self.issued + 1;
        id
    }

    /// Hands out the next background job id.
    pub fn claim_async_id(&mut self) -> (id: usize)
        requires
            old(self)@.async_issued < usize::MAX,
        ensures
            id == old(self)@.async_issued,
            final(self)@ == (ServerState { async_issued: old(self)@.async_issued + 1, ..old(self)@ }),
    {
        let id = self.async_issued;
        self.async_issued = self.async_issued + 1;
        id
    }

    /// Clones of the values stored under the ids, in order.
    fn read(&self, ids: &Vec<usize>) -> (values: Vec<V>)
        requires
            forall|i: int| 0 <= i < ids@.len() ==> self@.storage.contains_key(#[trigger] ids@[i]),
        ensures
            cloned_from(self@.storage, ids@, values@),
    {
        let mut values: Vec<V> = Vec::new();
        let mut i: usize = 0;
        while i < ids.len()
            invariant
                i <= ids@.len(),
                forall|j: int| 0 <= j < ids@.len() ==> self@.storage.contains_key(#[trigger] ids@[j]),
                values@.len() == i,
                forall|j: int| 0 <= j < i ==> cloned(self@.storage[ids@[j]], #[trigger] values@[j]),
            decreases ids@.len() - i,
        {
            let id = ids[i];
            assert(self@.storage.contains_key(ids@[i as int]));
            let value = self.storage.get(&id).unwrap().clone();
            values.push(value);
            i = i + 1;
        }
        values
    }

    /// Saves the values pairwise at the ids, first pair first; the longer list's
    /// extra items are ignored.
    fn save(&mut self, ids: &Vec<usize>, values: Vec<V>)
        requires
            forall|k: usize| #[trigger] old(self)@.storage.contains_key(k) ==> k < old(self)@.issued,
            forall|i: int| 0 <= i < ids@.len() ==> #[trigger] ids@[i] < old(self)@.issued,
        ensures
            final(self)@ == (ServerState { storage: saved(old(self)@.storage, ids@, values@), ..old(self)@ }),
            forall|k: usize| #[trigger] final(self)@.storage.contains_key(k) ==> k < final(self)@.issued,
    {
        let ghost start = self@;
        let ghost start_pending = self.temp_async_storage@;
        let mut rest = values;
        let mut i: usize = 0;
        assert(ids@.skip(0) =~= ids@);
        while i < ids.len() && rest.len() > 0
            invariant
                i <= ids@.len(),
                self.issued == start.issued,
                self.async_issued == start.async_issued,
                self.temp_async_storage@ == start_pending,
                self.job_in_flight == old(self).job_in_flight,
                self.in_flight_plan == old(self).in_flight_plan,
                self.answered == old(self).answered,
                saved(self.storage@, ids@.skip(i as int), rest@) == saved(start.storage, ids@, values@),
                forall|k: usize| #[trigger] self.storage@.contains_key(k) ==> k < start.issued,
                forall|j: int| 0 <= j < ids@.len() ==> #[trigger] ids@[j] < start.issued,
            decreases ids@.len() - i,
        {
            let ghost before = self.storage@;
            let ghost rest_before = rest@;
            let value = rest.remove(0);
            self.storage.insert(ids[i], value);
            proof {
                let tail = ids@.skip(i as int);
                assert(tail[0] == ids@[i as int]);
                assert(tail.drop_first() =~= ids@.skip(i as int + 1));
                assert(rest_before.drop_first() =~= rest@);
                assert(saved(before, tail, rest_before) == saved(
                    before.insert(tail[0], rest_before[0]),
                    tail.drop_first(),
                    rest_before.drop_first(),
                ));
            }
            i = i + 1;
        }
        proof {
            assert(saved(self.storage@, ids@.skip(i as int), rest@) == self.storage@);
            assert(self@ == (ServerState { storage: saved(start.storage, ids@, values@), ..start }));
        }
    }

    /// Saves what a job's closure handed back as its plan says and returns the
    /// reply owed to the job's client.
    pub fn finish(&mut self, plan: &SavePlan, outputs: Vec<V>) -> (reply: Reply)
        requires
            old(self)@.wf(),
            old(self)@.in_flight == Some(plan@),
        ensures
            final(self)@ == old(self)@.finished(outputs@),
            final(self)@.wf(),
            reply == plan@.reply,
            reply matches Reply::NewId(id) ==> !old(self)@.answered.contains(id),
    {
        let ghost start = self@;
        proof {
            lemma_finished_keeps_wf(start, outputs@);
            assert(start.in_flight_ok(plan@));
            if let Reply::NewId(id) = plan@.reply {
                assert(promises(plan@.reply, id));
            }
        }
        self.save(&plan.save_location_ids, outputs);
        self.job_in_flight = false;
        self.answered = Ghost(record_reply(self.answered@, plan.reply));
        proof {
            assert(self@ == start.finished(outputs@));
        }
        plan.reply
    }

    /// Registers a background job under a new id.
    fn register(&mut self, plan: SavePlan, notifier: N) -> (async_id: usize)
        requires
            old(self)@.async_issued < usize::MAX,
        ensures
            async_id == old(self)@.async_issued,
            final(self)@ == (ServerState {
                pending: old(self)@.pending.insert(async_id, (plan@, notifier)),
                async_issued: old(self)@.async_issued + 1,
                ..old(self)@
            }),
    {
        let async_id = self.claim_async_id();
        let ghost old_pending = self.temp_async_storage@;
        let entry = AwaitingResult { plan, js_arc_notifier: notifier };
        let ghost snapshot = entry;
        self.temp_async_storage.insert(async_id, entry);
        proof {
            assert(self.temp_async_storage@ == old_pending.insert(async_id, snapshot));
            assert(self@.pending =~= old(self)@.pending.insert(async_id, (plan@, notifier)));
        }
        async_id
    }

    /// Whether every listed id names a stored value.
    fn contains_all(&self, ids: &Vec<usize>) -> (found: bool)
        ensures
            found == forall|i: int| 0 <= i < ids@.len() ==> self@.storage.contains_key(#[trigger] ids@[i]),
    {
        let mut i: usize = 0;
        while i < ids.len()
            invariant
                i <= ids@.len(),
                forall|j: int| 0 <= j < i ==> self@.storage.contains_key(#[trigger] ids@[j]),
            decreases ids@.len() - i,
        {
            if !self.storage.contains_key(&ids[i]) {
                return false;
            }
            i = i + 1;
        }
        true
    }

    /// Whether the server can take the command (see `ServerState::accepts`).
    pub fn accepts(&self, command: &ServerCommands<V, N>) -> (ok: bool)
        ensures
            ok == self@.accepts(*command),
    {
        let room_for_id = self.issued < usize::MAX;
        let room_for_job = self.async_issued < usize::MAX;
        let idle = !self.job_in_flight;
        let fits = match command {
            ServerCommands::Initialize(..) => room_for_id,
            ServerCommands::InitializeAsync(..) => room_for_id && room_for_job,
            ServerCommands::Use(id, _) => self.storage.contains_key(id),
            ServerCommands::UseAsync(id, _) => self.storage.contains_key(id) && room_for_job,
            ServerCommands::UseTwo(id1, id2, _) => self.storage.contains_key(id1)
                && self.storage.contains_key(id2) && room_for_id,
            ServerCommands::UseTwoAsync(id1, id2, _) => self.storage.contains_key(id1)
                && self.storage.contains_key(id2) && room_for_id && room_for_job,
            ServerCommands::UseMany(id, others, _) => self.storage.contains_key(id)
                && self.contains_all(others) && room_for_id,
            ServerCommands::UseManyAsync(id, others, _) => self.storage.contains_key(id)
                && self.contains_all(others) && room_for_id && room_for_job,
            ServerCommands::Deallocate(_) => true,
            ServerCommands::AsyncExecutionComplete(async_id, _) => self.temp_async_storage.contains_key(
                async_id,
            ),
        };
        let ok = idle && fits;
        proof {
            let read = command.read_ids();
            let storage = self@.storage;
            match command {
                ServerCommands::Use(id, _) => {
                    assert(read[0] == id);
                },
                ServerCommands::UseAsync(id, _) => {
                    assert(read[0] == id);
                },
                ServerCommands::UseTwo(id1, id2, _) => {
                    assert(read[0] == id1 && read[1] == id2);
                },
                ServerCommands::UseTwoAsync(id1, id2, _) => {
                    assert(read[0] == id1 && read[1] == id2);
                },
                ServerCommands::UseMany(id, others, _) => {
                    lemma_read_many(storage, *id, others@);
                },
                ServerCommands::UseManyAsync(id, others, _) => {
                    lemma_read_many(storage, *id, others@);
                },
                _ => {},
            }
        }
        ok
    }

    /// The plan that saves back at the ids and answers `Done`.
    fn plan_in_place(ids: Vec<usize>) -> (plan: SavePlan)
        ensures
            plan@ == (SavePlanView { ids: ids@, reply: Reply::Done }),
    {
        SavePlan { save_location_ids: ids, reply: Reply::Done }
    }

    /// The plan that saves back at the ids, then under a newly handed out id,
    /// and answers with that id.
    fn plan_with_new_id(&mut self, ids: Vec<usize>) -> (plan: SavePlan)
        requires
            old(self)@.issued < usize::MAX,
        ensures
            plan@ == (SavePlanView {
                ids: ids@.push(old(self)@.issued as usize),
                reply: Reply::NewId(old(self)@.issued as usize),
            }),
            final(self)@ == (ServerState { issued: old(self)@.issued + 1, ..old(self)@ }),
    {
        let mut ids = ids;
        let id = self.claim_id();
        ids.push(id);
        SavePlan { save_location_ids: ids, reply: Reply::NewId(id) }
    }

    /// Records the plan of the job handed out to run at once.
    fn start_job(&mut self, plan: &SavePlan)
        ensures
            final(self)@ == (ServerState { in_flight: Some(plan@), ..old(self)@ }),
    {
        self.job_in_flight = true;
        self.in_flight_plan = Ghost(plan@);
    }

    /// Takes one command: hands out what a closure needs, registers background
    /// jobs, forgets values and saves what background jobs hand back.
    pub fn step(&mut self, command: ServerCommands<V, N>) -> (action: Action<V, N>)
        requires
            old(self)@.wf(),
            old(self)@.accepts(command),
        ensures
            final(self)@ == old(self)@.next(command),
            final(self)@.wf(),
            old(self)@.answers(command, action),
            action matches Action::Execute(job) ==> final(self)@.in_flight == Some(job.plan@)
                && forall|i: int|
                0 <= i < job.plan@.ids.len() ==> #[trigger] job.plan@.ids[i] < final(self)@.issued,
            action matches Action::Respond(_, Reply::NewId(id)) ==> !old(self)@.answered.contains(id),
    {
        let ghost start = self@;
        let ghost cmd = command;
        proof {
            lemma_next_keeps_wf(start, command);
        }
        match command {
            ServerCommands::Initialize(undefined, notifier) => {
                let ghost given = undefined;
                let mut inputs = Vec::new();
                inputs.push(undefined);
                let plan = self.plan_with_new_id(Vec::new());
                proof {
                    assert(inputs@ =~= seq![given]);
                    assert(plan@ == start.plan_for(cmd));
                }
                self.start_job(&plan);
                Action::Execute(Job { inputs, plan, notifier })
            },
            ServerCommands::InitializeAsync(undefined, notifier) => {
                let ghost given = undefined;
                let mut inputs = Vec::new();
                inputs.push(undefined);
                let plan = self.plan_with_new_id(Vec::new());
                proof {
                    assert(inputs@ =~= seq![given]);
                    assert(plan@ == start.plan_for(cmd));
                }
                let async_id = self.register(plan, notifier);
                Action::Spawn(async_id, inputs)
            },
            ServerCommands::Use(id, notifier) => {
                let mut ids = Vec::new();
                ids.push(id);
                proof {
                    assert(ids@ =~= cmd.read_ids());
                }
                let inputs = self.read(&ids);
                let plan = Self::plan_in_place(ids);
                self.start_job(&plan);
                Action::Execute(Job { inputs, plan, notifier })
            },
            ServerCommands::UseAsync(id, notifier) => {
                let mut ids = Vec::new();
                ids.push(id);
                proof {
                    assert(ids@ =~= cmd.read_ids());
                }
                let inputs = self.read(&ids);
                let plan = Self::plan_in_place(ids);
                let async_id = self.register(plan, notifier);
                Action::Spawn(async_id, inputs)
            },
            ServerCommands::UseTwo(id1, id2, notifier) => {
                let mut ids = Vec::new();
                ids.push(id1);
                ids.push(id2);
                proof {
                    assert(ids@ =~= cmd.read_ids());
                }
                let inputs = self.read(&ids);
                let plan = self.plan_with_new_id(ids);
                self.start_job(&plan);
                Action::Execute(Job { inputs, plan, notifier })
            },
            ServerCommands::UseTwoAsync(id1, id2, notifier) => {
                let mut ids = Vec::new();
                ids.push(id1);
                ids.push(id2);
                proof {
                    assert(ids@ =~= cmd.read_ids());
                }
                let inputs = self.read(&ids);
                let plan = self.plan_with_new_id(ids);
                let async_id = self.register(plan, notifier);
                Action::Spawn(async_id, inputs)
            },
            ServerCommands::UseMany(id, others, notifier) => {
                let mut ids = others;
                ids.insert(0, id);
                proof {
                    assert(ids@ =~= cmd.read_ids());
                }
                let inputs = self.read(&ids);
                let plan = self.plan_with_new_id(ids);
                self.start_job(&plan);
                Action::Execute(Job { inputs, plan, notifier })
            },
            ServerCommands::UseManyAsync(id, others, notifier) => {
                let mut ids = others;
                ids.insert(0, id);
                proof {
                    assert(ids@ =~= cmd.read_ids());
                }
                let inputs = self.read(&ids);
                let plan = self.plan_with_new_id(ids);
                let async_id = self.register(plan, notifier);
                Action::Spawn(async_id, inputs)
            },
            ServerCommands::Deallocate(id) => {
                self.storage.remove(&id);
                Action::Nothing
            },
            ServerCommands::AsyncExecutionComplete(async_id, outputs) => {
                let ghost old_pending = self.temp_async_storage@;
                let entry = self.temp_async_storage.remove(&async_id);
                match entry {
                    Some(awaiting) => {
                        proof {
                            assert(old_pending.contains_key(async_id));
                            assert(old_pending[async_id] == awaiting);
                            assert(self@.pending =~= start.pending.remove(async_id));
                            assert(awaiting.plan@ == start.pending[async_id].0);
                            assert forall|i: int|
                                0 <= i < awaiting.plan@.ids.len() implies #[trigger] awaiting.plan@.ids[i]
                                < start.issued by {
                                assert(start.pending[async_id].0.ids[i] < start.issued);
                            }
                            if let Reply::NewId(id) = awaiting.plan@.reply {
                                assert(promises(start.pending[async_id].0.reply, id));
                            }
                        }
                        self.save(&awaiting.plan.save_location_ids, outputs);
                        self.answered = Ghost(record_reply(self.answered@, awaiting.plan.reply));
                        Action::Respond(awaiting.js_arc_notifier, awaiting.plan.reply)
                    },
                    None => {
                        proof {
                            assert(start.pending.contains_key(async_id));
                        }
                        Action::Nothing
                    },
                }
            },
        }
    }

    /// Whether a value is stored under the id.
    pub fn contains(&self, id: usize) -> (found: bool)
        ensures
            found == self@.storage.contains_key(id),
    {
        self.storage.contains_key(&id)
    }

    /// Whether a background job with the id has not reported back yet.
    pub fn is_pending(&self, async_id: usize) -> (found: bool)
        ensures
            found == self@.pending.contains_key(async_id),
    {
        self.temp_async_storage.contains_key(&async_id)
    }
}

/// The values read by a command over many ids are all stored exactly when the
/// first one and the listed ones are.
proof fn lemma_read_many<V>(storage: Map<usize, V>, id: usize, others: Seq<usize>)
    ensures
        (forall|i: int| 0 <= i < (seq![id] + others).len() ==> storage.contains_key(
            #[trigger] (seq![id] + others)[i],
        )) <==> (storage.contains_key(id) && forall|i: int|
            0 <= i < others.len() ==> storage.contains_key(#[trigger] others[i])),
{
    let read = seq![id] + others;
    if forall|i: int| 0 <= i < read.len() ==> storage.contains_key(#[trigger] read[i]) {
        assert(read[0] == id);
        assert forall|i: int| 0 <= i < others.len() implies storage.contains_key(
            #[trigger] others[i],
        ) by {
            assert(read[i + 1] == others[i]);
        }
    }
    if storage.contains_key(id) && forall|i: int|
        0 <= i < others.len() ==> storage.contains_key(#[trigger] others[i]) {
        assert forall|i: int| 0 <= i < read.len() implies storage.contains_key(#[trigger] read[i]) by {
            if i > 0 {
                assert(read[i] == others[i - 1]);
            }
        }
    }
}

} // verus!
