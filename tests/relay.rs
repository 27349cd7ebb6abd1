use a_chat::broker::{Broker, WriterStep};
use a_chat::parse::{parse_line, RoutingRequest};
use a_chat::session::{Action, Session};

fn request(dests: &[&str], body: &str) -> RoutingRequest {
    RoutingRequest {
        destinations: dests.iter().map(|d| d.to_string()).collect(),
        body: body.to_string(),
    }
}

fn next(b: &mut Broker, id: u64) -> Option<String> {
    match b.next_message(id) {
        WriterStep::Deliver(m) => Some(m),
        _ => None,
    }
}

fn is_wait(s: &WriterStep) -> bool {
    matches!(s, WriterStep::Wait)
}

fn is_finished(s: &WriterStep) -> bool {
    matches!(s, WriterStep::Finished)
}

#[test]
fn parse_names_and_body_are_trimmed() {
    let r = parse_line("alice, bob :hello there").unwrap();
    assert_eq!(r.destinations, vec!["alice".to_string(), "bob".to_string()]);
    assert_eq!(r.body, "hello there");
}

#[test]
fn parse_drops_line_without_colon() {
    assert!(parse_line("no-colon-here").is_none());
    assert!(parse_line("").is_none());
}

#[test]
fn parse_empty_prefix_names_nobody() {
    let r = parse_line(":just body").unwrap();
    assert!(r.destinations.is_empty());
    assert_eq!(r.body, "just body");
    let r = parse_line("  \t:x").unwrap();
    assert!(r.destinations.is_empty());
    assert_eq!(r.body, "x");
}

#[test]
fn parse_splits_on_first_colon_only() {
    let r = parse_line("bob: a:b ").unwrap();
    assert_eq!(r.destinations, vec!["bob".to_string()]);
    assert_eq!(r.body, "a:b");
}

#[test]
fn parse_keeps_empty_pieces_and_duplicates() {
    let r = parse_line("a,,b, a:m").unwrap();
    assert_eq!(
        r.destinations,
        vec!["a".to_string(), "".to_string(), "b".to_string(), "a".to_string()]
    );
    assert_eq!(r.body, "m");
}

#[test]
fn parse_trims_unicode_whitespace() {
    let r = parse_line("\u{3000}zoë\u{a0}:\u{2003}héllo\n").unwrap();
    assert_eq!(r.destinations, vec!["zoë".to_string()]);
    assert_eq!(r.body, "héllo");
}

#[test]
fn scenario_alice_and_bob() {
    let mut b = Broker::new();
    let alice = b.register("alice").unwrap();
    let bob = b.register("bob").unwrap();
    let got = b.route(&parse_line("bob:hi").unwrap());
    assert_eq!(got, vec![bob]);
    assert_eq!(next(&mut b, bob), Some("hi".to_string()));
    assert!(is_wait(&b.next_message(bob)));
    assert!(is_wait(&b.next_message(alice)));
    b.deregister("bob");
    let got = b.route(&parse_line("bob:are you there").unwrap());
    assert!(got.is_empty());
    assert!(is_finished(&b.next_message(bob)));
    assert!(b.is_registered("alice"));
    assert!(!b.is_registered("bob"));
    assert!(is_wait(&b.next_message(alice)));
    let got = b.route(&request(&["alice"], "still here"));
    assert_eq!(got, vec![alice]);
}

#[test]
fn writer_sees_messages_in_routing_order() {
    let mut b = Broker::new();
    let p = b.register("p").unwrap();
    for m in ["one", "two", "three"] {
        b.route(&request(&["p"], m));
    }
    assert_eq!(b.pending_len(p), 3);
    assert_eq!(next(&mut b, p), Some("one".to_string()));
    b.route(&request(&["p"], "four"));
    assert_eq!(next(&mut b, p), Some("two".to_string()));
    assert_eq!(next(&mut b, p), Some("three".to_string()));
    assert_eq!(next(&mut b, p), Some("four".to_string()));
    assert!(is_wait(&b.next_message(p)));
}

#[test]
fn nothing_reaches_a_deregistered_name() {
    let mut b = Broker::new();
    let x = b.register("x").unwrap();
    b.route(&request(&["x"], "before"));
    b.deregister("x");
    b.deregister("x");
    assert!(b.route(&request(&["x", "x"], "after")).is_empty());
    assert_eq!(b.pending_len(x), 1);
    assert_eq!(next(&mut b, x), Some("before".to_string()));
    assert!(is_finished(&b.next_message(x)));
    assert_eq!(b.pending_len(x), 0);
}

#[test]
fn failure_of_one_writer_leaves_others_alone() {
    let mut b = Broker::new();
    let a = b.register("a").unwrap();
    let bb = b.register("b").unwrap();
    let c = b.register("c").unwrap();
    b.route(&request(&["a"], "lost"));
    b.writer_failed(a);
    assert!(!b.is_registered("a"));
    assert_eq!(b.route(&request(&["a", "c", "b"], "hello")), vec![c, bb]);
    assert_eq!(next(&mut b, c), Some("hello".to_string()));
    assert_eq!(next(&mut b, bb), Some("hello".to_string()));
    assert!(is_finished(&b.next_message(a)));
    b.writer_failed(a);
    assert!(b.is_registered("b"));
}

#[test]
fn shutdown_drains_queued_messages() {
    let mut b = Broker::new();
    let p = b.register("p").unwrap();
    let q = b.register("q").unwrap();
    b.route(&request(&["p", "q", "p"], "m"));
    b.shutdown();
    assert!(b.register("late").is_none());
    assert!(b.route(&request(&["p"], "after")).is_empty());
    assert!(!b.is_finished());
    assert_eq!(next(&mut b, p), Some("m".to_string()));
    assert_eq!(next(&mut b, p), Some("m".to_string()));
    assert!(is_finished(&b.next_message(p)));
    assert!(!b.is_finished());
    assert_eq!(next(&mut b, q), Some("m".to_string()));
    assert!(is_finished(&b.next_message(q)));
    assert!(b.is_finished());
}

#[test]
fn duplicate_destinations_deliver_twice() {
    let mut b = Broker::new();
    let p = b.register("p").unwrap();
    assert_eq!(b.route(&request(&["p", "nobody", "p"], "x")), vec![p, p]);
    assert_eq!(b.pending_len(p), 2);
}

#[test]
fn empty_destination_list_delivers_nothing() {
    let mut b = Broker::new();
    let p = b.register("p").unwrap();
    assert!(b.route(&parse_line(":just body").unwrap()).is_empty());
    assert_eq!(b.pending_len(p), 0);
}

#[test]
fn last_registration_under_a_name_wins() {
    let mut b = Broker::new();
    let first = b.register("dup").unwrap();
    let second = b.register("dup").unwrap();
    assert_ne!(first, second);
    assert_eq!(b.route(&request(&["dup"], "x")), vec![second]);
    assert!(is_finished(&b.next_message(first)));
    assert_eq!(next(&mut b, second), Some("x".to_string()));
}

#[test]
fn names_are_case_sensitive() {
    let mut b = Broker::new();
    b.register("Bob").unwrap();
    assert!(b.route(&request(&["bob"], "x")).is_empty());
}

#[test]
fn session_first_line_is_the_name() {
    let mut s = Session::new();
    match s.on_line(" alice ") {
        Action::Register(n) => assert_eq!(n, " alice "),
        _ => panic!("expected a registration"),
    }
    match s.on_line("bob , carol: hey ") {
        Action::Route(r) => {
            assert_eq!(r.destinations, vec!["bob".to_string(), "carol".to_string()]);
            assert_eq!(r.body, "hey");
        }
        _ => panic!("expected a route"),
    }
    assert!(matches!(s.on_line("no colon"), Action::Skip));
    match s.on_end() {
        Action::Deregister(n) => assert_eq!(n, " alice "),
        _ => panic!("expected a deregistration"),
    }
    assert!(s.is_ended());
    assert!(matches!(s.on_end(), Action::Skip));
    assert!(matches!(s.on_line("bob:late"), Action::Skip));
}

#[test]
fn session_closed_before_name_is_disconnected() {
    let mut s = Session::new();
    assert!(matches!(s.on_end(), Action::Disconnected));
    assert!(matches!(s.on_line("x"), Action::Skip));
}
