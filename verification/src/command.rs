//! The commands that a server takes and the actions it answers them with.

use vstd::prelude::*;

use crate::plan::{Reply, SavePlan, SavePlanView};

verus! {

/// A command sent to the server. `V` is the type of the stored values and
/// `N` that of the handle through which a client is answered.
pub enum ServerCommands<V, N> {
    /// Create a value: the closure is run on the given value and what it hands
    /// back is saved under a new id.
    Initialize(V, N),
    /// As `Initialize`, with the closure run in the background.
    InitializeAsync(V, N),
    /// Run the closure on the value stored under the id and save what it hands
    /// back under the same id.
    Use(usize, N),
    /// As `Use`, with the closure run in the background.
    UseAsync(usize, N),
    /// Run the closure on the values stored under the two ids; it hands back
    /// the two values to save under them and a third, saved under a new id.
    UseTwo(usize, usize, N),
    /// As `UseTwo`, with the closure run in the background.
    UseTwoAsync(usize, usize, N),
    /// Run the closure on the value under the first id followed by those under
    /// the listed ids; what it hands back is saved under these ids, in order,
    /// and its item after them under a new id.
    UseMany(usize, Vec<usize>, N),
    /// As `UseMany`, with the closure run in the background.
    UseManyAsync(usize, Vec<usize>, N),
    /// Forget the value stored under the id.
    Deallocate(usize),
    /// The background job registered under the id has handed back these values.
    AsyncExecutionComplete(usize, Vec<V>),
}

/// Work for the caller to run now: the closure of the command is run on
/// `inputs`, then what it hands back is given to the server's `finish` with
/// `plan`, and the reply it returns is sent through `notifier`.
pub struct Job<V, N> {
    pub inputs: Vec<V>,
    pub plan: SavePlan,
    pub notifier: N,
}

/// What the caller of the server must do next.
pub enum Action<V, N> {
    /// Run the job now.
    Execute(Job<V, N>),
    /// Run the closure on the inputs in the background; when it is done, send
    /// the server `AsyncExecutionComplete` with this id and what it handed back.
    Spawn(usize, Vec<V>),
    /// Send the reply through the handle.
    Respond(N, Reply),
    /// Nothing is to be done.
    Nothing,
}

impl<V, N> ServerCommands<V, N> {
    /// The ids whose stored values the command's closure is run on.
    pub open spec fn read_ids(self) -> Seq<usize> {
        match self {
            ServerCommands::Use(id, _) => seq![id],
            ServerCommands::UseAsync(id, _) => seq![id],
            ServerCommands::UseTwo(id1, id2, _) => seq![id1, id2],
            ServerCommands::UseTwoAsync(id1, id2, _) => seq![id1, id2],
            ServerCommands::UseMany(id, others, _) => seq![id] + others@,
            ServerCommands::UseManyAsync(id, others, _) => seq![id] + others@,
            _ => Seq::empty(),
        }
    }

    /// Whether the command saves a value under a new id.
    pub open spec fn creates_value(self) -> bool {
        match self {
            ServerCommands::Use(..) => false,
            ServerCommands::UseAsync(..) => false,
            ServerCommands::Deallocate(..) => false,
            ServerCommands::AsyncExecutionComplete(..) => false,
            _ => true,
        }
    }

    /// Whether the command's closure runs in the background.
    pub open spec fn is_async(self) -> bool {
        match self {
            ServerCommands::InitializeAsync(..) => true,
            ServerCommands::UseAsync(..) => true,
            ServerCommands::UseTwoAsync(..) => true,
            ServerCommands::UseManyAsync(..) => true,
            _ => false,
        }
    }

    /// Whether the command carries a closure to run.
    pub open spec fn runs_closure(self) -> bool {
        match self {
            ServerCommands::Deallocate(..) => false,
            ServerCommands::AsyncExecutionComplete(..) => false,
            _ => true,
        }
    }

    /// The handle through which the command's client is answered.
    pub open spec fn notifier(self) -> N
        recommends
            self.runs_closure(),
    {
        match self {
            ServerCommands::Initialize(_, n) => n,
            ServerCommands::InitializeAsync(_, n) => n,
            ServerCommands::Use(_, n) => n,
            ServerCommands::UseAsync(_, n) => n,
            ServerCommands::UseTwo(_, _, n) => n,
            ServerCommands::UseTwoAsync(_, _, n) => n,
            ServerCommands::UseMany(_, _, n) => n,
            ServerCommands::UseManyAsync(_, _, n) => n,
            _ => arbitrary(),
        }
    }

    /// The same command with its closure run at once.
    pub open spec fn in_foreground(self) -> ServerCommands<V, N> {
        match self {
            ServerCommands::InitializeAsync(v, n) => ServerCommands::Initialize(v, n),
            ServerCommands::UseAsync(id, n) => ServerCommands::Use(id, n),
            ServerCommands::UseTwoAsync(id1, id2, n) => ServerCommands::UseTwo(id1, id2, n),
            ServerCommands::UseManyAsync(id, others, n) => ServerCommands::UseMany(id, others, n),
            _ => self,
        }
    }
}

/// The plan of a command whose new value, if it makes one, gets `new_id`: its
/// values are saved back under the ids it read, then the new one.
pub open spec fn plan_of<V, N>(command: ServerCommands<V, N>, new_id: usize) -> SavePlanView {
    if command.creates_value() {
        SavePlanView { ids: command.read_ids().push(new_id), reply: Reply::NewId(new_id) }
    } else {
        SavePlanView { ids: command.read_ids(), reply: Reply::Done }
    }
}

/// Each input is a clone of the value stored under the id at its place.
pub open spec fn cloned_from<V: Clone>(
    storage: Map<usize, V>,
    ids: Seq<usize>,
    inputs: Seq<V>,
) -> bool {
    &&& inputs.len() == ids.len()
    &&& forall|i: int| 0 <= i < ids.len() ==> cloned(storage[ids[i]], #[trigger] inputs[i])
}

/// The values a command's closure is run on, read from `storage`.
pub open spec fn inputs_of<V: Clone, N>(
    command: ServerCommands<V, N>,
    storage: Map<usize, V>,
    inputs: Seq<V>,
) -> bool {
    match command {
        ServerCommands::Initialize(v, _) => inputs == seq![v],
        ServerCommands::InitializeAsync(v, _) => inputs == seq![v],
        _ => cloned_from(storage, command.read_ids(), inputs),
    }
}

} // verus!
