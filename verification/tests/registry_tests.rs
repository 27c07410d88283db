use ping_pong::message::{Delivery, Message, MessageType};
use ping_pong::registry::Registry;
use ping_pong::server::{choose_target, Reaction, Server};

fn ping(from: usize, to: usize) -> Delivery {
    Delivery { to, message: Message::new(MessageType::Ping, from) }
}

fn pong(from: usize, to: usize) -> Delivery {
    Delivery { to, message: Message::new(MessageType::Pong, from) }
}

#[test]
fn kind_names() {
    assert_eq!(MessageType::Ping.name(), "Ping");
    assert_eq!(MessageType::Pong.name(), "Pong");
}

#[test]
fn message_keeps_kind_and_sender() {
    let m = Message::new(MessageType::Pong, 7);
    assert_eq!(m.m_type, MessageType::Pong);
    assert_eq!(m.sender_id, 7);
    assert_ne!(m, Message::new(MessageType::Ping, 7));
}

#[test]
fn register_appends_present_entries() {
    let mut r = Registry::new();
    assert_eq!(r.len(), 0);
    assert_eq!(r.register(), 0);
    assert_eq!(r.register(), 1);
    assert_eq!(r.register(), 2);
    assert_eq!(r.len(), 3);
    assert!(r.is_present(0) && r.is_present(1) && r.is_present(2));
    assert_eq!(r.present_count(), 3);
}

#[test]
fn with_peers_has_everyone_present() {
    let r = Registry::with_peers(4);
    assert_eq!(r.len(), 4);
    assert_eq!(r.present_count(), 4);
    assert_eq!(r.reachable_indices(4), vec![0, 1, 2, 3]);
    assert_eq!(Registry::with_peers(0).len(), 0);
}

#[test]
fn reachable_leaves_out_self_and_absent() {
    let mut r = Registry::with_peers(5);
    assert_eq!(r.reachable_indices(2), vec![0, 1, 3, 4]);
    r.clear(3);
    assert_eq!(r.reachable_indices(2), vec![0, 1, 4]);
    assert_eq!(r.reachable_indices(3), vec![0, 1, 2, 4]);
    r.clear(0);
    r.clear(1);
    r.clear(4);
    assert_eq!(r.reachable_indices(2), Vec::<usize>::new());
    assert_eq!(r.reachable_indices(0), vec![2]);
}

#[test]
fn clear_is_permanent_and_idempotent() {
    let mut r = Registry::with_peers(3);
    r.clear(1);
    assert!(!r.is_present(1));
    assert_eq!(r.present_count(), 2);
    r.clear(1);
    assert!(!r.is_present(1));
    assert_eq!(r.present_count(), 2);
    assert!(r.is_present(0) && r.is_present(2));
}

#[test]
fn route_ping_delivers_and_keeps_entry() {
    let mut r = Registry::with_peers(3);
    assert!(r.route_to(1, MessageType::Ping));
    assert!(r.is_present(1));
    assert_eq!(r.present_count(), 3);
}

#[test]
fn route_pong_delivers_then_removes() {
    let mut r = Registry::with_peers(3);
    assert!(r.route_to(1, MessageType::Pong));
    assert!(!r.is_present(1));
    assert_eq!(r.present_count(), 2);
}

#[test]
fn route_to_absent_is_skipped() {
    let mut r = Registry::with_peers(3);
    r.clear(2);
    assert!(!r.route_to(2, MessageType::Ping));
    assert!(!r.route_to(2, MessageType::Pong));
    assert!(!r.is_present(2));
    assert_eq!(r.present_count(), 2);
}

#[test]
fn draw_selects_by_remainder() {
    let candidates = vec![3, 5, 9];
    assert_eq!(choose_target(&candidates, 0), 3);
    assert_eq!(choose_target(&candidates, 1), 5);
    assert_eq!(choose_target(&candidates, 2), 9);
    assert_eq!(choose_target(&candidates, 7), 5);
    assert_eq!(choose_target(&candidates, 7 + 3), 5);
    assert_eq!(choose_target(&candidates, usize::MAX), candidates[usize::MAX % 3]);
}

#[test]
fn send_internal_reports_the_delivery() {
    let mut r = Registry::with_peers(3);
    let s = Server::new(0);
    assert_eq!(s.id(), 0);
    assert_eq!(s.send_internal(&mut r, 2, MessageType::Ping), Some(ping(0, 2)));
    assert!(r.is_present(2));
    assert_eq!(s.send_internal(&mut r, 2, MessageType::Pong), Some(pong(0, 2)));
    assert!(!r.is_present(2));
    assert_eq!(s.send_internal(&mut r, 2, MessageType::Pong), None);
    assert_eq!(s.send_internal(&mut r, 2, MessageType::Ping), None);
}

#[test]
fn send_with_picks_among_reachable() {
    let mut r = Registry::with_peers(5);
    r.clear(1);
    let s = Server::new(3);
    // reachable without 3: [0, 2, 4]
    assert_eq!(s.send_with(&mut r, MessageType::Ping, 0), Some(ping(3, 0)));
    assert_eq!(s.send_with(&mut r, MessageType::Ping, 1), Some(ping(3, 2)));
    assert_eq!(s.send_with(&mut r, MessageType::Ping, 5), Some(ping(3, 4)));
    assert_eq!(r.present_count(), 4);
    assert_eq!(s.send_with(&mut r, MessageType::Pong, 4), Some(pong(3, 2)));
    assert!(!r.is_present(2));
    assert_eq!(r.present_count(), 3);
}

#[test]
fn send_with_nobody_left_clears_self() {
    let mut r = Registry::with_peers(3);
    r.clear(0);
    r.clear(2);
    let s = Server::new(1);
    assert_eq!(s.send_with(&mut r, MessageType::Ping, 12), None);
    assert!(!r.is_present(1));
    assert_eq!(r.present_count(), 0);
    // nothing reaches a peer that removed itself
    assert!(!r.route_to(1, MessageType::Ping));
    assert_eq!(Server::new(0).send_internal(&mut r, 1, MessageType::Pong), None);
    assert_eq!(r.reachable_indices(0), Vec::<usize>::new());
}

#[test]
fn send_random_nobody_left_clears_self() {
    let mut r = Registry::with_peers(1);
    assert_eq!(Server::new(0).send(&mut r, MessageType::Ping), None);
    assert!(!r.is_present(0));
}

#[test]
fn send_random_stays_within_reachable() {
    for _ in 0..200 {
        let mut r = Registry::with_peers(6);
        r.clear(4);
        let out = Server::new(1).send(&mut r, MessageType::Ping).unwrap();
        assert_eq!(out.message, Message::new(MessageType::Ping, 1));
        assert!(out.to != 1 && out.to != 4 && out.to < 6);
        assert_eq!(r.present_count(), 5);
    }
}

#[test]
fn send_random_is_close_to_uniform() {
    let trials = 9000;
    let mut hits = vec![0usize; 4];
    for _ in 0..trials {
        let mut r = Registry::with_peers(4);
        let out = Server::new(0).send(&mut r, MessageType::Ping).unwrap();
        hits[out.to] += 1;
    }
    assert_eq!(hits[0], 0);
    for to in 1..4 {
        assert!(hits[to] > 2600 && hits[to] < 3400, "peer {} drawn {} times", to, hits[to]);
    }
}

#[test]
fn ping_gets_one_pong_and_moves_on() {
    let mut r = Registry::with_peers(4);
    let out = Server::new(2).receive_with(&mut r, Message::new(MessageType::Ping, 0), 1);
    // 0 is answered and removed; reachable without 2 is then [1, 3]
    assert_eq!(out, Reaction { answer: Some(pong(2, 0)), forward: Some(ping(2, 3)) });
    assert!(!r.is_present(0));
    assert_eq!(r.present_count(), 3);
}

#[test]
fn ping_from_absent_sender_is_answered_by_nothing() {
    let mut r = Registry::with_peers(3);
    r.clear(0);
    let out = Server::new(1).receive_with(&mut r, Message::new(MessageType::Ping, 0), 0);
    assert_eq!(out, Reaction { answer: None, forward: Some(ping(1, 2)) });
    assert_eq!(r.present_count(), 2);
}

#[test]
fn last_peer_answers_then_clears_itself() {
    let mut r = Registry::with_peers(2);
    let out = Server::new(1).receive_with(&mut r, Message::new(MessageType::Ping, 0), 9);
    assert_eq!(out, Reaction { answer: Some(pong(1, 0)), forward: None });
    assert_eq!(r.present_count(), 0);
}

#[test]
fn pong_causes_nothing() {
    let mut r = Registry::with_peers(3);
    let out = Server::new(1).receive_with(&mut r, Message::new(MessageType::Pong, 2), 5);
    assert_eq!(out, Reaction { answer: None, forward: None });
    assert_eq!(r.present_count(), 3);
    let out = Server::new(1).receive(&mut r, Message::new(MessageType::Pong, 2));
    assert_eq!(out, Reaction { answer: None, forward: None });
    assert_eq!(r.present_count(), 3);
}

#[test]
fn receive_random_answers_and_forwards() {
    let mut r = Registry::with_peers(3);
    let out = Server::new(1).receive(&mut r, Message::new(MessageType::Ping, 0));
    assert_eq!(out, Reaction { answer: Some(pong(1, 0)), forward: Some(ping(1, 2)) });
    assert_eq!(r.present_count(), 2);
}
