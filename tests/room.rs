use chattest::{
    activity_of, announce, find_string, handshake, joining, plan_pass, retain_kept, Activity,
    Code, Delivery, Handshake, Joining, LogEntry, PollEvent, Polled,
};

fn s(x: &str) -> String {
    x.to_string()
}

/// Runs the server's side of a handshake for `name` and registers the client
/// when it is accepted.
fn join(clients: &mut Vec<(u32, String)>, id: u32, name: &str) -> Handshake {
    let h = handshake(clients, "lobby", "root", &Code::Name(s(name)));
    if let Handshake::Accept { name, .. } = &h {
        clients.push((id, name.clone()));
    }
    h
}

fn three() -> Vec<(u32, String)> {
    let mut clients = Vec::new();
    for (id, n) in [(10u32, "A"), (11, "B"), (12, "C")] {
        assert!(matches!(join(&mut clients, id, n), Handshake::Accept { .. }));
    }
    clients
}

#[test]
fn text_reaches_every_other_client_once() {
    let clients = three();
    let plan = plan_pass(
        &clients,
        &[Activity::Said(s("hi")), Activity::Idle, Activity::Idle],
    );
    assert_eq!(
        plan.deliveries,
        vec![
            Delivery { to: 1, message: Code::MessageFrom(s("A"), s("hi")) },
            Delivery { to: 2, message: Code::MessageFrom(s("A"), s("hi")) },
        ]
    );
    assert!(plan.deliveries.iter().all(|d| d.to != 0));
    assert_eq!(plan.log, vec![LogEntry::Said(s("A"), s("hi"))]);
    assert_eq!(plan.keep, vec![true, true, true]);
}

#[test]
fn abrupt_disconnect_is_announced_once_and_removed() {
    let mut clients = three();
    let plan = plan_pass(&clients, &[Activity::Idle, Activity::Left, Activity::Idle]);
    let notice = Code::MessageTo(s("User B disconnected!"));
    assert_eq!(
        plan.deliveries,
        vec![
            Delivery { to: 0, message: notice.clone() },
            Delivery { to: 2, message: notice },
        ]
    );
    assert_eq!(plan.log, vec![LogEntry::Left(s("B"))]);
    assert_eq!(plan.keep, vec![true, false, true]);
    retain_kept(&mut clients, &plan.keep);
    assert_eq!(clients, vec![(10, s("A")), (12, s("C"))]);
    assert!(!find_string(&clients, "B"));

    let next = plan_pass(&clients, &[Activity::Idle, Activity::Said(s("still here?"))]);
    assert_eq!(
        next.deliveries,
        vec![Delivery { to: 0, message: Code::MessageFrom(s("C"), s("still here?")) }]
    );
}

#[test]
fn text_in_the_pass_where_a_client_leaves() {
    let clients = three();
    let plan = plan_pass(&clients, &[Activity::Said(s("bye B")), Activity::Left, Activity::Idle]);
    assert_eq!(
        plan.deliveries,
        vec![
            Delivery { to: 2, message: Code::MessageFrom(s("A"), s("bye B")) },
            Delivery { to: 0, message: Code::MessageTo(s("User B disconnected!")) },
            Delivery { to: 2, message: Code::MessageTo(s("User B disconnected!")) },
        ]
    );
    assert_eq!(plan.log, vec![LogEntry::Said(s("A"), s("bye B")), LogEntry::Left(s("B"))]);
}

#[test]
fn taken_name_is_refused_until_a_free_one_comes() {
    let mut clients = Vec::new();
    assert!(matches!(join(&mut clients, 1, "A"), Handshake::Accept { .. }));
    assert_eq!(join(&mut clients, 2, "A"), Handshake::Refuse { reply: Code::AlreadyHere });
    assert_eq!(clients, vec![(1, s("A"))]);
    assert_eq!(join(&mut clients, 2, "root"), Handshake::Refuse { reply: Code::AlreadyHere });
    assert_eq!(clients, vec![(1, s("A"))]);
    assert_eq!(
        join(&mut clients, 2, "B"),
        Handshake::Accept {
            name: s("B"),
            reply: Code::Welcome(s("lobby"), s("root")),
            notices: vec![Delivery { to: 0, message: Code::MessageTo(s("User B connected!")) }],
        }
    );
    assert_eq!(clients, vec![(1, s("A")), (2, s("B"))]);
}

#[test]
fn handshake_ignores_other_messages() {
    let clients: Vec<(u32, String)> = Vec::new();
    assert_eq!(handshake(&clients, "r", "a", &Code::MessageTo(s("x"))), Handshake::Ignore);
    assert_eq!(handshake(&clients, "r", "a", &Code::AlreadyHere), Handshake::Ignore);
}

#[test]
fn first_client_gets_no_notices() {
    let clients: Vec<(u32, String)> = Vec::new();
    assert_eq!(
        handshake(&clients, "r", "a", &Code::Name(s("n"))),
        Handshake::Accept { name: s("n"), reply: Code::Welcome(s("r"), s("a")), notices: vec![] }
    );
}

#[test]
fn find_string_matches_whole_names() {
    let clients = vec![((), s("anna")), ((), s("bo")), ((), s("\u{e9}mile"))];
    assert!(find_string(&clients, "anna"));
    assert!(find_string(&clients, "bo"));
    assert!(find_string(&clients, "\u{e9}mile"));
    assert!(!find_string(&clients, "ann"));
    assert!(!find_string(&clients, "bob"));
    assert!(!find_string(&clients, ""));
    let none: Vec<((), String)> = vec![];
    assert!(!find_string(&none, "anna"));
}

#[test]
fn announce_goes_to_everyone() {
    let clients = three();
    assert_eq!(
        announce(&clients, "welcome all"),
        vec![
            Delivery { to: 0, message: Code::MessageTo(s("welcome all")) },
            Delivery { to: 1, message: Code::MessageTo(s("welcome all")) },
            Delivery { to: 2, message: Code::MessageTo(s("welcome all")) },
        ]
    );
}

#[test]
fn activity_of_polls() {
    assert_eq!(
        activity_of(Polled::Decided(PollEvent::Message(Code::MessageTo(s("t"))))),
        Activity::Said(s("t"))
    );
    assert_eq!(activity_of(Polled::Disconnected), Activity::Left);
    assert_eq!(activity_of(Polled::Nothing), Activity::Idle);
    assert_eq!(activity_of(Polled::Failed), Activity::Idle);
    assert_eq!(
        activity_of(Polled::Decided(PollEvent::Message(Code::Name(s("t"))))),
        Activity::Idle
    );
}

#[test]
fn retain_kept_keeps_order() {
    let mut v = vec![1, 2, 3, 4, 5];
    retain_kept(&mut v, &[false, true, false, true, true]);
    assert_eq!(v, vec![2, 4, 5]);
    let mut w = vec![7];
    retain_kept(&mut w, &[false]);
    assert!(w.is_empty());
}

#[test]
fn joining_reads_the_reply() {
    assert_eq!(
        joining(Code::Welcome(s("r"), s("a"))),
        Joining::Welcomed { room: s("r"), admin: s("a") }
    );
    assert_eq!(joining(Code::AlreadyHere), Joining::NameTaken);
    assert_eq!(joining(Code::MessageTo(s("?"))), Joining::Unexpected(Code::MessageTo(s("?"))));
}
