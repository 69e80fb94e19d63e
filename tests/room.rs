use ripoff_robots::net::PlayerJoinMessage;
use ripoff_robots::room::{Bid, BidQueue, RoomState};
use std::cmp::Ordering;

fn s(x: &str) -> String {
    x.to_string()
}

#[test]
fn bids_pop_highest_then_earliest() {
    let mut q = BidQueue::new();
    q.push(Bid::new(10, 5, s("a")));
    q.push(Bid::new(5, 7, s("b")));
    q.push(Bid::new(3, 7, s("c")));
    let order: Vec<(u32, u32)> = std::iter::from_fn(|| q.pop()).map(|b| (b.bid, b.timestamp)).collect();
    assert_eq!(order, vec![(7, 3), (7, 5), (5, 10)]);
    assert!(q.pop().is_none());
}

#[test]
fn equal_bids_keep_arrival_order() {
    let mut q = BidQueue::new();
    q.push(Bid::new(4, 2, s("first")));
    q.push(Bid::new(4, 2, s("second")));
    assert_eq!(q.peek().map(|b| b.name.clone()), Some(s("first")));
    assert_eq!(q.pop().unwrap().name, "first");
    assert_eq!(q.pop().unwrap().name, "second");
    assert_eq!(q.len(), 0);
}

#[test]
fn bid_comparison() {
    let a = Bid::new(10, 5, s("a"));
    let b = Bid::new(5, 7, s("b"));
    let c = Bid::new(3, 7, s("c"));
    assert_eq!(b.partial_cmp(&a), Some(Ordering::Greater));
    assert_eq!(c.partial_cmp(&b), Some(Ordering::Greater));
    assert_eq!(b.partial_cmp(&c), Some(Ordering::Less));
    assert!(c > b && b > a);
    assert!(c.outranks(&b) && !b.outranks(&c));
    assert!(Bid::new(1, 2, s("x")) == Bid::new(1, 2, s("y")));
}

#[test]
fn missing_score_is_zero() {
    let mut r = RoomState::new();
    assert_eq!(r.score(&s("nobody")), 0);
    r.add_player(s("p1"), s("Alice"));
    assert_eq!(r.score(&s("p1")), 0);
    r.upsert_player(s("p1"), s("Alice"), 12);
    assert_eq!(r.score(&s("p1")), 12);
    assert_eq!(r.player_name(&s("p1")), Some(&s("Alice")));
}

#[test]
fn join_then_leave_removes_everything() {
    let mut r = RoomState::new();
    r.apply_join(PlayerJoinMessage { ids: vec![s("p1")], names: vec![s("Alice")], scores: vec![0] });
    assert_eq!(r.player_name(&s("p1")), Some(&s("Alice")));
    assert_eq!(r.player_count(), 1);
    r.remove_player(&s("p1"));
    assert_eq!(r.player_name(&s("p1")), None);
    assert_eq!(r.score(&s("p1")), 0);
    assert_eq!(r.player_count(), 0);
}

#[test]
fn join_stores_complete_entries_only() {
    let mut r = RoomState::new();
    r.apply_join(PlayerJoinMessage {
        ids: vec![s("a"), s("b"), s("c")],
        names: vec![s("A"), s("B")],
        scores: vec![1, 2, 3],
    });
    assert_eq!(r.player_count(), 2);
    assert_eq!(r.score(&s("b")), 2);
    assert_eq!(r.player_name(&s("c")), None);
}

#[test]
fn roster_lists_everyone_once() {
    let mut r = RoomState::new();
    r.add_player(s("host"), s("Hana"));
    r.upsert_player(s("p1"), s("Alice"), 4);
    r.add_player(s("p2"), s("Bob"));
    r.add_player(s("p1"), s("Alicia"));
    let m = r.roster();
    assert_eq!(m.ids.len(), 3);
    let mut rows: Vec<(String, String, u32)> =
        m.ids.iter().zip(m.names.iter()).zip(m.scores.iter()).map(|((i, n), s)| (i.clone(), n.clone(), *s)).collect();
    rows.sort();
    assert_eq!(rows, vec![(s("host"), s("Hana"), 0), (s("p1"), s("Alicia"), 4), (s("p2"), s("Bob"), 0)]);
}

#[test]
fn clear_empties_the_room() {
    let mut r = RoomState::new();
    r.upsert_player(s("p1"), s("Alice"), 3);
    r.push_bid(Bid::new(1, 1, s("p1")));
    r.clear();
    assert_eq!(r.player_count(), 0);
    assert_eq!(r.bid_count(), 0);
    assert_eq!(r.score(&s("p1")), 0);
}

#[test]
fn round_bids_clear_and_refill() {
    let mut r = RoomState::new();
    r.push_bid(Bid::new(1, 3, s("a")));
    r.clear_bids();
    assert!(r.pop_bid().is_none());
    r.push_bid(Bid::new(2, 4, s("b")));
    r.push_bid(Bid::new(1, 9, s("c")));
    assert_eq!(r.pop_bid().unwrap().name, "c");
    assert_eq!(r.bid_count(), 1);
}

#[test]
fn default_room_is_empty() {
    let r = RoomState::default();
    assert_eq!(r.player_count(), 0);
    assert_eq!(r.bid_count(), 0);
}
