use std::cell::Cell;
use std::sync::Arc;

use js_arc::command::{Action, ServerCommands};
use js_arc::plan::Reply;
use js_arc::send_sync_drop;
use js_arc::server::JsArcServer;

type Server = JsArcServer<i64, &'static str>;
type Command = ServerCommands<i64, &'static str>;

/// Takes a command whose closure runs at once, runs it and saves its results.
fn run(server: &mut Server, command: Command, closure: impl Fn(Vec<i64>) -> Vec<i64>) -> Reply {
    assert!(server.accepts(&command));
    match server.step(command) {
        Action::Execute(job) => {
            let outputs = closure(job.inputs);
            server.finish(&job.plan, outputs)
        }
        _ => panic!("expected a job to run at once"),
    }
}

fn new_id(reply: Reply) -> usize {
    match reply {
        Reply::NewId(id) => id,
        Reply::Done => panic!("expected a new id"),
    }
}

fn create(server: &mut Server, value: i64) -> usize {
    new_id(run(server, ServerCommands::Initialize(0, "new"), move |_| vec![value]))
}

fn value_of(server: &mut Server, id: usize) -> i64 {
    let seen = Cell::new(0);
    let reply = run(server, ServerCommands::Use(id, "read"), |values| {
        seen.set(values[0]);
        values
    });
    assert_eq!(reply, Reply::Done);
    seen.get()
}

/// Takes a command whose closure runs in the background.
fn spawn(server: &mut Server, command: Command) -> (usize, Vec<i64>) {
    assert!(server.accepts(&command));
    match server.step(command) {
        Action::Spawn(async_id, inputs) => (async_id, inputs),
        _ => panic!("expected a background job"),
    }
}

fn complete(server: &mut Server, async_id: usize, outputs: Vec<i64>) -> (&'static str, Reply) {
    let command = ServerCommands::AsyncExecutionComplete(async_id, outputs);
    assert!(server.accepts(&command));
    match server.step(command) {
        Action::Respond(notifier, reply) => (notifier, reply),
        _ => panic!("expected a reply"),
    }
}

#[test]
fn with_self_result_is_saved() {
    let mut server = Server::new();
    let v = create(&mut server, 2);
    assert_eq!(value_of(&mut server, v), 2);
    let reply = run(&mut server, ServerCommands::Use(v, "add"), |values| vec![values[0] + 5]);
    assert_eq!(reply, Reply::Done);
    assert_eq!(value_of(&mut server, v), 7);
}

#[test]
fn initialize_hands_out_increasing_ids() {
    let mut server = Server::new();
    let a = create(&mut server, 10);
    let b = create(&mut server, 20);
    let c = create(&mut server, 30);
    assert_eq!((a, b, c), (0, 1, 2));
    assert_eq!(value_of(&mut server, a), 10);
    assert_eq!(value_of(&mut server, b), 20);
    assert_eq!(value_of(&mut server, c), 30);
}

#[test]
fn initialize_closure_gets_the_given_value() {
    let mut server = Server::new();
    let seen = Cell::new(-1);
    let id = new_id(run(&mut server, ServerCommands::Initialize(42, "new"), |values| {
        seen.set(values[0]);
        vec![1]
    }));
    assert_eq!(seen.get(), 42);
    assert_eq!(value_of(&mut server, id), 1);
}

#[test]
fn with_other_adds_two_values() {
    let mut server = Server::new();
    let one = create(&mut server, 1);
    let two = create(&mut server, 2);
    let three = new_id(run(&mut server, ServerCommands::UseTwo(one, two, "add"), |v| {
        vec![v[0], v[1], v[0] + v[1]]
    }));
    assert_eq!(three, 2);
    assert_eq!(value_of(&mut server, three), 3);
    assert_eq!(value_of(&mut server, one), 1);
    assert_eq!(value_of(&mut server, two), 2);
}

#[test]
fn with_other_saves_both_changed_values() {
    let mut server = Server::new();
    let a = create(&mut server, 4);
    let b = create(&mut server, 6);
    let c = new_id(run(&mut server, ServerCommands::UseTwo(a, b, "swap"), |v| {
        vec![v[1], v[0], v[0] * v[1]]
    }));
    assert_eq!(value_of(&mut server, a), 6);
    assert_eq!(value_of(&mut server, b), 4);
    assert_eq!(value_of(&mut server, c), 24);
}

#[test]
fn with_other_on_one_value_keeps_the_second_result() {
    let mut server = Server::new();
    let a = create(&mut server, 5);
    let c = new_id(run(&mut server, ServerCommands::UseTwo(a, a, "twice"), |v| {
        assert_eq!(v, vec![5, 5]);
        vec![100, 200, 300]
    }));
    assert_eq!(value_of(&mut server, a), 200);
    assert_eq!(value_of(&mut server, c), 300);
}

#[test]
fn operators_compute_three_ten_seven() {
    let mut server = Server::new();
    let one = create(&mut server, 1);
    let two = create(&mut server, 2);
    let binary = |server: &mut Server, l: usize, r: usize, op: fn(i64, i64) -> i64| {
        new_id(run(server, ServerCommands::UseTwo(l, r, "op"), move |v| vec![v[0], v[1], op(v[0], v[1])]))
    };
    let three = binary(&mut server, one, two, |l, r| l + r);
    let nine = binary(&mut server, three, three, |l, r| l * r);
    let ten = binary(&mut server, nine, one, |l, r| l + r);
    let seven = binary(&mut server, ten, three, |l, r| l - r);
    assert_eq!(value_of(&mut server, three), 3);
    assert_eq!(value_of(&mut server, ten), 10);
    assert_eq!(value_of(&mut server, seven), 7);
}

#[test]
fn negation_goes_through_a_throwaway_value() {
    let mut server = Server::new();
    let v = create(&mut server, 8);
    let throwaway = create(&mut server, 0);
    let negated = new_id(run(&mut server, ServerCommands::UseTwo(v, throwaway, "neg"), |values| {
        let r = -values[0];
        vec![values[0], r, r]
    }));
    assert!(matches!(server.step(ServerCommands::Deallocate(throwaway)), Action::Nothing));
    assert_eq!(value_of(&mut server, negated), -8);
    assert_eq!(value_of(&mut server, v), 8);
    assert!(!server.contains(throwaway));
}

#[test]
fn with_many_sums_to_ten() {
    let mut server = Server::new();
    let ids: Vec<usize> = (0..5).map(|i| create(&mut server, i)).collect();
    let ten = new_id(run(&mut server, ServerCommands::UseMany(ids[0], ids[1..].to_vec(), "sum"), |mut all| {
        assert_eq!(all, vec![0, 1, 2, 3, 4]);
        let result = all.iter().sum();
        all.push(result);
        all
    }));
    assert_eq!(ten, 5);
    assert_eq!(value_of(&mut server, ten), 10);
    for (i, id) in ids.iter().enumerate() {
        assert_eq!(value_of(&mut server, *id), i as i64);
    }
}

#[test]
fn with_many_without_an_extra_value_leaves_the_new_id_empty() {
    let mut server = Server::new();
    let a = create(&mut server, 1);
    let b = create(&mut server, 2);
    let reply = run(&mut server, ServerCommands::UseMany(a, vec![b], "short"), |all| {
        vec![all[0] * 10, all[1] * 10]
    });
    let created = new_id(reply);
    assert_eq!(created, 2);
    assert!(!server.contains(created));
    assert_eq!(value_of(&mut server, a), 10);
    assert_eq!(value_of(&mut server, b), 20);
    assert!(!server.accepts(&ServerCommands::Use(created, "read")));
}

#[test]
fn with_many_extra_results_are_ignored() {
    let mut server = Server::new();
    let a = create(&mut server, 1);
    let created = new_id(run(&mut server, ServerCommands::UseMany(a, vec![], "long"), |_| vec![7, 8, 9, 10]));
    assert_eq!(value_of(&mut server, a), 7);
    assert_eq!(value_of(&mut server, created), 8);
    assert!(!server.contains(created + 1));
}

#[test]
fn with_many_async_gives_twenty() {
    let mut server = Server::new();
    let ids: Vec<usize> = (0..5).map(|i| create(&mut server, i)).collect();
    let (async_id, inputs) = spawn(&mut server, ServerCommands::UseManyAsync(ids[0], ids[1..].to_vec(), "many"));
    assert_eq!(async_id, 0);
    assert!(server.is_pending(async_id));
    let mut all = inputs;
    let result = all.iter().sum::<i64>() * all[2];
    all.push(result);
    let (notifier, reply) = complete(&mut server, async_id, all);
    assert_eq!(notifier, "many");
    let twenty = new_id(reply);
    assert_eq!(twenty, 5);
    assert!(!server.is_pending(async_id));
    assert_eq!(value_of(&mut server, twenty), 20);
}

#[test]
fn initialize_async_stores_at_completion() {
    let mut server = Server::new();
    let (async_id, inputs) = spawn(&mut server, ServerCommands::InitializeAsync(-1, "module"));
    assert_eq!(inputs, vec![-1]);
    assert!(!server.contains(0));
    let (notifier, reply) = complete(&mut server, async_id, vec![99]);
    assert_eq!(notifier, "module");
    assert_eq!(reply, Reply::NewId(0));
    assert_eq!(value_of(&mut server, 0), 99);
}

#[test]
fn with_self_async_answers_done() {
    let mut server = Server::new();
    let v = create(&mut server, 3);
    let (async_id, inputs) = spawn(&mut server, ServerCommands::UseAsync(v, "wait"));
    assert_eq!(inputs, vec![3]);
    let (notifier, reply) = complete(&mut server, async_id, vec![inputs[0] * 2]);
    assert_eq!((notifier, reply), ("wait", Reply::Done));
    assert_eq!(value_of(&mut server, v), 6);
}

#[test]
fn with_other_async_matches_with_other() {
    let mut background = Server::new();
    let mut foreground = Server::new();
    for server in [&mut background, &mut foreground] {
        create(server, 3);
        create(server, 2);
    }
    let (async_id, inputs) = spawn(&mut background, ServerCommands::UseTwoAsync(0, 1, "bg"));
    assert_eq!(inputs, vec![3, 2]);
    let (_, bg_reply) = complete(&mut background, async_id, vec![3, 2, 5]);
    let fg_reply = run(&mut foreground, ServerCommands::UseTwo(0, 1, "fg"), |_| vec![3, 2, 5]);
    assert_eq!(bg_reply, fg_reply);
    for id in 0..3 {
        assert_eq!(value_of(&mut background, id), value_of(&mut foreground, id));
    }
}

#[test]
fn background_result_overwrites_later_changes() {
    let mut server = Server::new();
    let v = create(&mut server, 1);
    let (async_id, inputs) = spawn(&mut server, ServerCommands::UseAsync(v, "slow"));
    run(&mut server, ServerCommands::Use(v, "fast"), |_| vec![50]);
    assert_eq!(value_of(&mut server, v), 50);
    complete(&mut server, async_id, vec![inputs[0] + 1]);
    assert_eq!(value_of(&mut server, v), 2);
}

#[test]
fn background_jobs_get_distinct_ids() {
    let mut server = Server::new();
    let v = create(&mut server, 1);
    let (first, _) = spawn(&mut server, ServerCommands::UseAsync(v, "a"));
    let (second, _) = spawn(&mut server, ServerCommands::UseAsync(v, "b"));
    assert_ne!(first, second);
    assert!(server.is_pending(first) && server.is_pending(second));
    let (notifier, _) = complete(&mut server, second, vec![2]);
    assert_eq!(notifier, "b");
    assert!(server.is_pending(first));
    assert!(!server.is_pending(second));
}

#[test]
fn deallocate_forgets_only_that_value() {
    let mut server = Server::new();
    let a = create(&mut server, 1);
    let b = create(&mut server, 2);
    let command = ServerCommands::Deallocate(a);
    assert!(server.accepts(&command));
    assert!(matches!(server.step(command), Action::Nothing));
    assert!(!server.contains(a));
    assert!(server.contains(b));
    assert_eq!(value_of(&mut server, b), 2);
    let c = create(&mut server, 3);
    assert_ne!(c, a);
}

#[test]
fn deallocating_a_missing_id_is_accepted() {
    let mut server = Server::new();
    let command = ServerCommands::Deallocate(12);
    assert!(server.accepts(&command));
    assert!(matches!(server.step(command), Action::Nothing));
}

#[test]
fn missing_ids_are_refused() {
    let mut server = Server::new();
    let a = create(&mut server, 1);
    assert!(server.accepts(&ServerCommands::Use(a, "ok")));
    assert!(!server.accepts(&ServerCommands::Use(a + 1, "missing")));
    assert!(!server.accepts(&ServerCommands::UseAsync(a + 1, "missing")));
    assert!(!server.accepts(&ServerCommands::UseTwo(a, a + 1, "missing")));
    assert!(!server.accepts(&ServerCommands::UseTwoAsync(a + 1, a, "missing")));
    assert!(!server.accepts(&ServerCommands::UseMany(a, vec![a, 7], "missing")));
    assert!(!server.accepts(&ServerCommands::UseManyAsync(9, vec![a], "missing")));
    assert!(server.accepts(&ServerCommands::UseMany(a, vec![a, a], "ok")));
    assert!(!server.accepts(&ServerCommands::AsyncExecutionComplete(0, vec![])));
    assert!(server.accepts(&ServerCommands::Initialize(0, "ok")));
}

#[test]
fn claimed_ids_count_up() {
    let mut server = Server::new();
    assert_eq!(server.claim_id(), 0);
    assert_eq!(server.claim_id(), 1);
    assert_eq!(server.claim_async_id(), 0);
    assert_eq!(server.claim_async_id(), 1);
    assert_eq!(create(&mut server, 5), 2);
    let (async_id, _) = spawn(&mut server, ServerCommands::UseAsync(2, "x"));
    assert_eq!(async_id, 2);
}

#[test]
fn results_are_saved_pairwise_in_order() {
    let mut server = Server::new();
    let a = create(&mut server, 0);
    let b = create(&mut server, 0);
    let created = new_id(run(&mut server, ServerCommands::UseMany(a, vec![b, a], "pairs"), |_| vec![1, 2, 3]));
    assert_eq!(value_of(&mut server, a), 3);
    assert_eq!(value_of(&mut server, b), 2);
    assert!(!server.contains(created));
}

#[test]
fn no_command_is_taken_while_a_job_runs() {
    let mut server = Server::new();
    let a = create(&mut server, 1);
    let first = server.step(ServerCommands::Use(a, "first"));
    let job = match first {
        Action::Execute(job) => job,
        _ => panic!("expected a job to run at once"),
    };
    assert!(!server.accepts(&ServerCommands::Use(a, "second")));
    assert!(!server.accepts(&ServerCommands::Deallocate(a)));
    assert!(!server.accepts(&ServerCommands::Initialize(0, "new")));
    let outputs: Vec<i64> = job.inputs.iter().map(|v| v + 1).collect();
    server.finish(&job.plan, outputs);
    assert!(server.accepts(&ServerCommands::Use(a, "second")));
    run(&mut server, ServerCommands::Use(a, "second"), |v| vec![v[0] + 1]);
    assert_eq!(value_of(&mut server, a), 3);
}

#[test]
fn answered_ids_are_never_repeated() {
    let mut server = Server::new();
    let mut answered = Vec::new();
    let a = create(&mut server, 1);
    answered.push(a);
    let (async_id, _) = spawn(&mut server, ServerCommands::InitializeAsync(0, "later"));
    let b = create(&mut server, 2);
    answered.push(b);
    assert!(matches!(server.step(ServerCommands::Deallocate(a)), Action::Nothing));
    let c = new_id(run(&mut server, ServerCommands::UseTwo(b, b, "two"), |v| vec![v[0], v[1], 3]));
    answered.push(c);
    let (_, reply) = complete(&mut server, async_id, vec![4]);
    answered.push(new_id(reply));
    let d = create(&mut server, 5);
    answered.push(d);
    let mut sorted = answered.clone();
    sorted.sort();
    sorted.dedup();
    assert_eq!(sorted.len(), answered.len());
    assert_eq!(answered, vec![0, 2, 3, 1, 4]);
}

#[test]
fn send_sync_drop_takes_shared_values() {
    send_sync_drop(Arc::new(5u32));
    send_sync_drop(String::from("hello!"));
}
