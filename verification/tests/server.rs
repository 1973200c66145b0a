use mini1::command::Command;
use mini1::database::{Data, Database, Registry};
use mini1::execute_cmd::{
    execute_blpop_cmd, execute_brpop_cmd, execute_exists_cmd, execute_get_cmd,
    execute_lpush_cmd, execute_ping_cmd, execute_rpush_cmd, execute_select_cmd,
    execute_set_cmd, PopStep,
};
use mini1::utils::{execute_command, execute_queued_commands, push_command, CmdStep, DrainStep};

fn fresh() -> Registry {
    Registry::new()
}

fn run(cmd: Command, db: &mut Registry, sel: &mut u8, executed: &mut bool) -> String {
    match execute_command(&cmd, db, sel, executed, 0) {
        CmdStep::Done(s) => s,
        CmdStep::Wait(_) => panic!("command should not wait"),
    }
}

#[test]
fn set_then_get_returns_the_value() {
    let mut db = fresh();
    let r = execute_set_cmd("k".to_string(), "v".to_string(), &mut db, 0).unwrap();
    assert_eq!(r, "+OK\r\n");
    let r = execute_get_cmd("k".to_string(), &db, 0).unwrap();
    assert_eq!(r, "+v\r\n");
}

#[test]
fn get_on_absent_key_returns_null_bulk() {
    let db = fresh();
    let r = execute_get_cmd("nope".to_string(), &db, 0).unwrap();
    assert_eq!(r, "$-1\r\n");
}

#[test]
fn get_on_list_key_reports_no_value() {
    let mut db = fresh();
    execute_rpush_cmd("L".to_string(), vec!["x".to_string()], &mut db, 0).unwrap();
    let r = execute_get_cmd("L".to_string(), &db, 0).unwrap();
    assert_eq!(r, "$-1\r\n");
}

#[test]
fn ping_echoes_or_pongs() {
    assert_eq!(execute_ping_cmd(None).unwrap(), "+PONG\r\n");
    assert_eq!(execute_ping_cmd(Some("hey".to_string())).unwrap(), "+hey\r\n");
}

#[test]
fn exists_counts_duplicates_independently() {
    let mut db = fresh();
    execute_set_cmd("a".to_string(), "1".to_string(), &mut db, 0).unwrap();
    let keys = vec!["a".to_string(), "b".to_string(), "a".to_string()];
    let r = execute_exists_cmd(keys, &db, 0).unwrap();
    assert_eq!(r, ":2\r\n");
}

#[test]
fn rpush_appends_in_order_and_lpush_reverses() {
    let mut db = fresh();
    let r = execute_rpush_cmd(
        "L".to_string(),
        vec!["x".to_string(), "y".to_string()],
        &mut db,
        0,
    )
    .unwrap();
    assert_eq!(r, ":2\r\n");
    let r = execute_rpush_cmd("L".to_string(), vec!["z".to_string()], &mut db, 0).unwrap();
    assert_eq!(r, ":3\r\n");
    // The list is now x, y, z: popping from the head sees x first.
    let keys = vec!["L".to_string()];
    for expected in ["x", "y", "z"] {
        match execute_blpop_cmd(&keys, 1000, &mut db, 0, 0) {
            PopStep::Done(Ok(reply)) => {
                assert_eq!(
                    reply,
                    format!("*2\r\n$1\r\nL\r\n${}\r\n{}\r\n", expected.len(), expected)
                );
            }
            _ => panic!("expected an immediate pop"),
        }
    }

    let r = execute_lpush_cmd(
        "L2".to_string(),
        vec!["x".to_string(), "y".to_string()],
        &mut db,
        0,
    )
    .unwrap();
    assert_eq!(r, ":2\r\n");
    // The list is now y, x.
    let keys = vec!["L2".to_string()];
    match execute_blpop_cmd(&keys, 1000, &mut db, 0, 0) {
        PopStep::Done(Ok(reply)) => assert_eq!(reply, "*2\r\n$2\r\nL2\r\n$1\r\ny\r\n"),
        _ => panic!("expected an immediate pop"),
    }
}

#[test]
fn rpush_on_scalar_fails_without_mutation() {
    let mut db = fresh();
    execute_set_cmd("k".to_string(), "v".to_string(), &mut db, 0).unwrap();
    let r = execute_rpush_cmd("k".to_string(), vec!["x".to_string()], &mut db, 0);
    assert!(matches!(r, Err("Key is not a list")));
    // The scalar is unchanged.
    let r = execute_get_cmd("k".to_string(), &db, 0).unwrap();
    assert_eq!(r, "+v\r\n");
}

#[test]
fn select_succeeds_only_at_session_start() {
    let mut db = fresh();
    let mut sel: u8 = 0;
    let mut executed = false;
    let r = run(Command::Select(1), &mut db, &mut sel, &mut executed);
    assert_eq!(r, "+OK\r\n");
    assert_eq!(sel, 1);
    // A second SELECT in the same session fails whatever the index.
    let r = run(Command::Select(0), &mut db, &mut sel, &mut executed);
    assert_eq!(r, "-SELECT can only be called at the start of the session\r\n");
    assert_eq!(sel, 1);
}

#[test]
fn any_command_locks_out_later_selects_even_on_failure() {
    let mut db = fresh();
    let mut sel: u8 = 0;
    let mut executed = false;
    // A GET on an absent key still raises the command-executed flag.
    let r = run(Command::Get("k".to_string()), &mut db, &mut sel, &mut executed);
    assert_eq!(r, "$-1\r\n");
    assert!(executed);
    let r = run(Command::Select(2), &mut db, &mut sel, &mut executed);
    assert_eq!(r, "-SELECT can only be called at the start of the session\r\n");
    assert_eq!(sel, 0);
}

#[test]
fn select_isolates_databases() {
    let mut db = fresh();
    let mut sel: u8 = 0;
    let mut executed = false;
    let r = run(Command::Select(3), &mut db, &mut sel, &mut executed);
    assert_eq!(r, "+OK\r\n");
    execute_set_cmd("k".to_string(), "three".to_string(), &mut db, sel).unwrap();
    // Database 0 does not see the key.
    assert_eq!(execute_get_cmd("k".to_string(), &db, 0).unwrap(), "$-1\r\n");
    assert_eq!(execute_get_cmd("k".to_string(), &db, 3).unwrap(), "+three\r\n");
}

#[test]
fn select_creates_databases_lazily() {
    let mut db = fresh();
    let mut sel: u8 = 0;
    assert_eq!(execute_select_cmd(5, &mut db, &mut sel).unwrap(), "+OK\r\n");
    assert_eq!(sel, 5);
    assert_eq!(execute_get_cmd("k".to_string(), &db, 5).unwrap(), "$-1\r\n");
}

#[test]
fn blpop_returns_immediately_when_data_is_ready() {
    let mut db = fresh();
    execute_rpush_cmd("k".to_string(), vec!["head".to_string()], &mut db, 0).unwrap();
    // With data ready the first poll answers at once: no wait is asked for.
    match execute_blpop_cmd(&vec!["k".to_string()], 1000, &mut db, 0, 0) {
        PopStep::Done(Ok(reply)) => assert_eq!(reply, "*2\r\n$1\r\nk\r\n$4\r\nhead\r\n"),
        _ => panic!("expected an immediate pop"),
    }
}

#[test]
fn blpop_times_out_after_polling_and_creates_no_list() {
    let mut db = fresh();
    let keys = vec!["k".to_string()];
    // Poll at 0, 100 and 200 milliseconds: each asks for another tick.
    for elapsed in [0u64, 100, 200] {
        match execute_blpop_cmd(&keys, 300, &mut db, 0, elapsed) {
            PopStep::Wait(d) => assert_eq!(d, 100),
            _ => panic!("expected a wait"),
        }
    }
    // At 300 milliseconds the timeout has elapsed.
    match execute_blpop_cmd(&keys, 300, &mut db, 0, 300) {
        PopStep::Done(Err(e)) => assert_eq!(e, "Timeout"),
        _ => panic!("expected a timeout"),
    }
    // No list was created while waiting.
    assert_eq!(execute_exists_cmd(keys, &db, 0).unwrap(), ":0\r\n");
}

#[test]
fn blpop_with_zero_timeout_fails_after_one_scan() {
    let mut db = fresh();
    match execute_blpop_cmd(&vec!["k".to_string()], 0, &mut db, 0, 0) {
        PopStep::Done(Err(e)) => assert_eq!(e, "Timeout"),
        _ => panic!("expected a timeout"),
    }
}

#[test]
fn blpop_takes_the_first_ready_key_without_blocking_on_others() {
    let mut db = fresh();
    execute_rpush_cmd("k2".to_string(), vec!["v".to_string()], &mut db, 0).unwrap();
    // Only the second candidate has data: it answers without any wait.
    let keys = vec!["k1".to_string(), "k2".to_string()];
    match execute_blpop_cmd(&keys, 1000, &mut db, 0, 0) {
        PopStep::Done(Ok(reply)) => assert_eq!(reply, "*2\r\n$2\r\nk2\r\n$1\r\nv\r\n"),
        _ => panic!("expected an immediate pop"),
    }
}

#[test]
fn brpop_pops_from_the_tail() {
    let mut db = fresh();
    execute_rpush_cmd(
        "k".to_string(),
        vec!["a".to_string(), "b".to_string()],
        &mut db,
        0,
    )
    .unwrap();
    match execute_brpop_cmd(&vec!["k".to_string()], 1000, &mut db, 0, 0) {
        PopStep::Done(Ok(reply)) => assert_eq!(reply, "*2\r\n$1\r\nk\r\n$1\r\nb\r\n"),
        _ => panic!("expected an immediate pop"),
    }
}

#[test]
fn queued_commands_run_in_order_and_concatenate_replies() {
    let mut db = fresh();
    let mut sel: u8 = 0;
    let mut executed = false;
    push_command(&mut db, sel, Command::SetValue("k".to_string(), "v".to_string()));
    push_command(&mut db, sel, Command::Get("k".to_string()));
    push_command(&mut db, sel, Command::Ping(None));
    let mut session_sel = sel;
    match execute_queued_commands(
        sel,
        &mut db,
        &mut session_sel,
        &mut executed,
        None,
        String::new(),
        0,
    ) {
        DrainStep::Done(s) => assert_eq!(s, "+OK\r\n+v\r\n+PONG\r\n"),
        DrainStep::Waiting(_, _, _) => panic!("nothing should wait"),
    }
}

#[test]
fn drained_blocking_pop_hands_back_the_command_to_resume() {
    let mut db = fresh();
    let mut sel: u8 = 0;
    let mut executed = false;
    push_command(&mut db, sel, Command::BLPOP(vec!["k".to_string()], 250));
    let (acc, cmd, delay) = match execute_queued_commands(
        0,
        &mut db,
        &mut sel,
        &mut executed,
        None,
        String::new(),
        0,
    ) {
        DrainStep::Waiting(acc, cmd, delay) => (acc, cmd, delay),
        DrainStep::Done(_) => panic!("the pop should wait"),
    };
    assert_eq!(acc, "");
    assert_eq!(delay, 100);
    // Data arrives while the command waits; the resumed poll pops it.
    execute_rpush_cmd("k".to_string(), vec!["v".to_string()], &mut db, 0).unwrap();
    match execute_queued_commands(0, &mut db, &mut sel, &mut executed, Some(cmd), acc, 100) {
        DrainStep::Done(s) => assert_eq!(s, "*2\r\n$1\r\nk\r\n$1\r\nv\r\n"),
        DrainStep::Waiting(_, _, _) => panic!("data was ready"),
    }
}

#[test]
fn database_new_starts_empty() {
    let d = Database::new();
    assert_eq!(d.data.len(), 0);
    assert_eq!(d.queue.len(), 0);
    let scalar = Data::Scalar("v".to_string());
    assert!(matches!(scalar, Data::Scalar(ref s) if s == "v"));
}

#[test]
fn pop_replies_carry_byte_counted_lengths() {
    let mut db = fresh();
    execute_rpush_cmd("é".to_string(), vec!["éx".to_string()], &mut db, 0).unwrap();
    match execute_blpop_cmd(&vec!["é".to_string()], 1000, &mut db, 0, 0) {
        PopStep::Done(Ok(reply)) => {
            // "é" is two bytes, "éx" is three.
            assert_eq!(reply, "*2\r\n$2\r\n\u{e9}\r\n$3\r\n\u{e9}x\r\n");
        }
        _ => panic!("expected an immediate pop"),
    }
}
