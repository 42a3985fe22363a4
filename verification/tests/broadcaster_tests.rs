use broadcast_core::chat::{Broadcaster, UnknownSender};
use broadcast_core::codec::event_data;
use broadcast_core::decode::parse_event_data;
use broadcast_core::msg::{Msg, Paste, UserMsg};
use broadcast_core::MAILBOX_CAPACITY;

fn drain(b: &mut Broadcaster, id: u64) -> Vec<String> {
    let mut frames = Vec::new();
    loop {
        match b.next_frame(id) {
            Ok(Some(f)) => frames.push(f),
            Ok(None) => return frames,
            Err(_) => panic!("unknown client while draining"),
        }
    }
}

#[test]
fn join_ids_are_pairwise_distinct() {
    let mut b = Broadcaster::new();
    let mut ids = Vec::new();
    for k in 0..20 {
        let nick = format!("user{}", k);
        ids.push(b.new_user(&nick, None));
    }
    for i in 0..ids.len() {
        for j in 0..ids.len() {
            if i != j {
                assert_ne!(ids[i], ids[j]);
            }
        }
    }
}

#[test]
fn scenario_alice_bob_carol() {
    let mut b = Broadcaster::new();
    let alice = b.new_user("alice", None);
    let bob = b.new_user("bob", None);
    b.send_at(alice, String::from("hi"), 5).unwrap();

    let bob_frames = drain(&mut b, bob);
    assert_eq!(bob_frames.len(), 2);
    assert_eq!(bob_frames[0], "data: {\"type\":\"Connected\",\"data\":[]}\n\n");
    assert_eq!(
        bob_frames[1],
        "data: {\"type\":\"Message\",\"data\":{\"nick\":\"alice\",\"custom_nick_color\":null,\"msg\":\"hi\",\"time\":\"1970-01-01T00:00:05Z\"}}\n\n"
    );

    b.rotate_history();
    let carol = b.new_user("carol", None);
    let carol_frames = drain(&mut b, carol);
    assert_eq!(carol_frames.len(), 1);
    assert_eq!(carol_frames[0], "data: {\"type\":\"Connected\",\"data\":[]}\n\n");
}

#[test]
fn publishes_are_delivered_in_order_to_everyone() {
    let mut b = Broadcaster::new();
    let a = b.new_user("a", None);
    let c = b.new_user("c", None);
    b.send_at(a, String::from("first"), 1).unwrap();
    b.send_at(c, String::from("second"), 2).unwrap();
    b.send_at(a, String::from("third"), 3).unwrap();

    for id in [a, c] {
        let frames = drain(&mut b, id);
        let bodies: Vec<String> = frames
            .iter()
            .skip(1)
            .map(|f| {
                match parse_event_data(f) {
                    Some(Msg::Message(um)) => um.msg,
                    other => panic!("expected a message frame, got {:?}", other),
                }
            })
            .collect();
        assert_eq!(bodies, vec!["first", "second", "third"]);
    }
}

#[test]
fn history_accumulates_in_publish_order_and_rotation_clears_it() {
    let mut b = Broadcaster::new();
    let a = b.new_user("a", None);
    for k in 0..7 {
        b.send_at(a, format!("m{}", k), k as u64).unwrap();
    }
    let history = b.history_snapshot();
    assert_eq!(history.len(), 7);
    for (k, m) in history.iter().enumerate() {
        assert_eq!(m.msg, format!("m{}", k));
        assert_eq!(m.nick, "a");
        assert_eq!(m.time, k as u64);
    }
    b.rotate_history();
    assert!(b.history_snapshot().is_empty());
}

#[test]
fn connected_snapshot_is_a_copy_not_a_live_view() {
    let mut b = Broadcaster::new();
    let a = b.new_user("alice", None);
    b.send_at(a, String::from("one"), 1).unwrap();
    let bob = b.new_user("bob", None);
    b.send_at(a, String::from("two"), 2).unwrap();

    let bob_frames = drain(&mut b, bob);
    match parse_event_data(&bob_frames[0]) {
        Some(Msg::Connected(h)) => {
            assert_eq!(h.len(), 1);
            assert_eq!(h[0].msg, "one");
        },
        other => panic!("expected a connected frame, got {:?}", other),
    }
}

#[test]
fn unknown_sender_is_an_error_and_changes_nothing() {
    let mut b = Broadcaster::new();
    let a = b.new_user("a", None);
    assert_eq!(b.send_at(a + 1, String::from("x"), 0), Err(UnknownSender));
    assert_eq!(b.change_color(a + 1, String::from("#fff")), Err(UnknownSender));
    assert_eq!(b.change_nick(a + 1, String::from("z")), Err(UnknownSender));
    assert_eq!(b.disconnect(a + 1), Err(UnknownSender));
    assert!(b.next_frame(a + 1).is_err());
    assert!(b.history_snapshot().is_empty());
    assert_eq!(b.user_count(), 1);
}

#[test]
fn full_mailbox_is_evicted_by_sweep_and_publishing_goes_on() {
    let mut b = Broadcaster::new();
    let a = b.new_user("a", None);
    // One Connected frame is already queued; fill the rest of a's mailbox.
    for k in 0..(MAILBOX_CAPACITY - 1) {
        b.send_at(a, format!("fill{}", k), k as u64).unwrap();
    }
    let fresh = b.new_user("fresh", None);
    assert_eq!(b.user_count(), 2);

    b.remove_dead_users();
    assert_eq!(b.user_count(), 1);
    assert!(b.next_frame(a).is_err());

    // Publishing from the surviving client still succeeds.
    b.send_at(fresh, String::from("after sweep"), 99).unwrap();
    let frames = drain(&mut b, fresh);
    // Connected, one ping from the sweep, then the message.
    assert_eq!(frames.len(), 3);
    assert_eq!(frames[1], "data: {\"type\":\"Ping\"}\n\n");
    assert_eq!(parse_event_data(&frames[2]).is_some(), true);
}

#[test]
fn full_mailbox_drops_frames_instead_of_growing() {
    let mut b = Broadcaster::new();
    let a = b.new_user("a", None);
    for k in 0..(MAILBOX_CAPACITY + 20) {
        b.send_at(a, format!("m{}", k), k as u64).unwrap();
    }
    let frames = drain(&mut b, a);
    assert_eq!(frames.len(), MAILBOX_CAPACITY);
}

#[test]
fn disconnect_closes_the_mailbox_and_sweep_evicts() {
    let mut b = Broadcaster::new();
    let a = b.new_user("a", None);
    let c = b.new_user("c", None);
    b.disconnect(a).unwrap();
    b.send_at(c, String::from("still here"), 0).unwrap();
    b.remove_dead_users();
    assert_eq!(b.user_count(), 1);
    assert!(b.next_frame(a).is_err());
    assert!(b.next_frame(c).is_ok());
}

#[test]
fn attribute_changes_update_the_record_and_are_broadcast() {
    let mut b = Broadcaster::new();
    let a = b.new_user("a", None);
    let c = b.new_user("c", None);
    b.change_nick(a, String::from("anna")).unwrap();
    b.change_color(a, String::from("#0000ff")).unwrap();
    b.send_at(a, String::from("hello"), 7).unwrap();

    let c_frames = drain(&mut b, c);
    assert_eq!(c_frames.len(), 4);
    assert_eq!(c_frames[1], "data: {\"type\":\"NickChange\",\"data\":\"anna\"}\n\n");
    assert_eq!(c_frames[2], "data: {\"type\":\"ColorChange\",\"data\":\"#0000ff\"}\n\n");
    match parse_event_data(&c_frames[3]) {
        Some(Msg::Message(um)) => {
            assert_eq!(um.nick, "anna");
            assert_eq!(um.custom_nick_color.as_deref(), Some("#0000ff"));
            assert_eq!(um.msg, "hello");
            assert_eq!(um.time, 7);
        },
        other => panic!("expected a message frame, got {:?}", other),
    }

    // The issuer receives its own change frames too.
    let a_frames = drain(&mut b, a);
    assert_eq!(a_frames[1], "data: {\"type\":\"NickChange\",\"data\":\"anna\"}\n\n");
    assert_eq!(a_frames[2], "data: {\"type\":\"ColorChange\",\"data\":\"#0000ff\"}\n\n");
}

#[test]
fn pastes_are_broadcast_but_not_kept_in_history() {
    let mut b = Broadcaster::new();
    let a = b.new_user("a", None);
    let paste = Paste {
        id: 1,
        filename: Some(String::from("f.txt")),
        content: Some(String::from("body")),
        creation_date: 10,
    };
    b.send_paste(paste);
    assert!(b.history_snapshot().is_empty());
    let frames = drain(&mut b, a);
    assert_eq!(frames.len(), 2);
    assert_eq!(
        frames[1],
        "data: {\"type\":\"Paste\",\"data\":{\"id\":1,\"filename\":\"f.txt\",\"content\":\"body\",\"creation_date\":\"1970-01-01T00:00:10Z\"}}\n\n"
    );
}

#[test]
fn connected_snapshot_matches_history_snapshot() {
    let mut b = Broadcaster::new();
    let a = b.new_user("alice", Some(String::from("#abcdef")));
    b.send_at(a, String::from("x"), 3).unwrap();
    let snapshot = b.history_snapshot();
    let expected = event_data(&Msg::connected(&snapshot));
    let late = b.new_user("late", None);
    let frames = drain(&mut b, late);
    assert_eq!(frames.len(), 1);
    assert_eq!(frames[0], expected);
}

#[test]
fn sender_color_is_carried_in_messages() {
    let mut b = Broadcaster::new();
    let a = b.new_user("alice", Some(String::from("#abcdef")));
    b.send_at(a, String::from("tinted"), 1).unwrap();
    let m = &b.history_snapshot()[0];
    assert_eq!(m.custom_nick_color.as_deref(), Some("#abcdef"));
    let expected = UserMsg {
        nick: String::from("alice"),
        custom_nick_color: Some(String::from("#abcdef")),
        msg: String::from("tinted"),
        time: 1,
    };
    assert_eq!(*m, expected);
}
