use ripoff_robots::board::Board;
use ripoff_robots::generate::MIN_SIDE;
use ripoff_robots::net::{
    BoardStateMessage, MakeBidMessage, Message, PlayerJoinMessage, PlayerLeaveMessage, StartBidMessage,
    StartEvalMessage, UpdateBidMessage,
};
use ripoff_robots::rng::Rng;
use ripoff_robots::session::{room_peer_id, NetworkState, Outgoing, ProtocolError, Session, SessionError};

fn text(x: &str) -> String {
    x.to_string()
}

fn board(seed: u64) -> Board {
    Board::generate(16, 16, &mut Rng::new(seed)).unwrap()
}

fn conns(session: &Session) -> Vec<String> {
    match session.state() {
        NetworkState::Server { conns, .. } => conns.clone(),
        _ => vec![],
    }
}

fn host_with(peers: &[(&str, &str)]) -> Session {
    let mut h = Session::new(board(1));
    h.host(text("Hana")).unwrap();
    for (id, name) in peers {
        h.peer_connected(text(id), Some(text(name)));
    }
    h
}

fn deliver(client: &mut Session, out: Vec<Outgoing>) {
    for o in out {
        client.receive_as_client(o.message).unwrap();
    }
}

#[test]
fn room_ids_are_prefixed() {
    assert_eq!(room_peer_id("1f2e"), "ripoff-robots-1f2e");
    assert_eq!(room_peer_id(""), "ripoff-robots-");
}

#[test]
fn hosting_lists_the_host() {
    let mut h = Session::new(board(1));
    assert!(matches!(h.state(), NetworkState::Idle));
    h.host(text("Hana")).unwrap();
    assert!(matches!(h.state(), NetworkState::Server { initialized: false, .. }));
    assert_eq!(h.room().player_name(&text("host")), Some(&text("Hana")));
    assert_eq!(h.host(text("again")), Err(SessionError::Busy));
    assert_eq!(h.join(text("elsewhere")), Err(SessionError::Busy));
    h.listener_ready();
    assert!(matches!(h.state(), NetworkState::Server { initialized: true, .. }));
}

#[test]
fn newcomer_is_announced_to_the_others_only() {
    let mut h = host_with(&[("p1", "Alice")]);
    let out = h.peer_connected(text("p2"), None);
    assert_eq!(out.len(), 1);
    assert_eq!(out[0].to, vec![text("p1")]);
    match &out[0].message {
        Message::PlayerJoin(m) => {
            assert_eq!(m.ids, vec![text("p2")]);
            assert_eq!(m.names, vec![text("Anonymous")]);
            assert_eq!(m.scores, vec![0]);
        }
        _ => panic!("expected a join"),
    }
    assert_eq!(conns(&h), vec![text("p1"), text("p2")]);
    assert_eq!(h.room().player_name(&text("p2")), Some(&text("Anonymous")));
}

#[test]
fn opened_connection_gets_board_then_roster() {
    let h = host_with(&[("p1", "Alice"), ("p2", "Bob")]);
    let out = h.peer_opened(&text("p2"));
    assert_eq!(out.len(), 2);
    assert!(out.iter().all(|o| o.to == vec![text("p2")]));
    assert!(matches!(out[0].message, Message::BoardState(_)));
    match &out[1].message {
        Message::PlayerJoin(m) => {
            let mut ids = m.ids.clone();
            ids.sort();
            assert_eq!(ids, vec![text("host"), text("p1"), text("p2")]);
        }
        _ => panic!("expected a roster"),
    }
}

#[test]
fn late_joiner_matches_the_host() {
    let mut h = host_with(&[("p1", "Alice"), ("p2", "Bob")]);
    h.set_board(board(9));
    let mut c = Session::new(board(2));
    c.join(room_peer_id("abc")).unwrap();
    deliver(&mut c, h.peer_opened(&text("p2")));
    assert_eq!(c.board().horizontal_walls, h.board().horizontal_walls);
    assert_eq!(c.board().vertical_walls, h.board().vertical_walls);
    assert_eq!(c.room().player_count(), 3);
    for id in ["host", "p1", "p2", "p3"] {
        assert_eq!(c.room().player_name(&text(id)), h.room().player_name(&text(id)));
        assert_eq!(c.room().score(&text(id)), h.room().score(&text(id)));
    }
}

#[test]
fn departure_is_broadcast_and_forgotten() {
    let mut h = host_with(&[("p1", "Alice"), ("p2", "Bob")]);
    let out = h.peer_closed(&text("p1"));
    assert_eq!(conns(&h), vec![text("p2")]);
    assert_eq!(out.len(), 1);
    assert_eq!(out[0].to, vec![text("p2")]);
    assert!(matches!(&out[0].message, Message::PlayerLeave(m) if m.id == "p1"));
    assert_eq!(h.room().player_name(&text("p1")), None);
    assert_eq!(h.room().score(&text("p1")), 0);
}

#[test]
fn client_join_then_leave() {
    let mut c = Session::new(board(2));
    c.join(text("ripoff-robots-1")).unwrap();
    let join = PlayerJoinMessage { ids: vec![text("p1")], names: vec![text("Alice")], scores: vec![0] };
    c.receive_as_client(Message::PlayerJoin(join)).unwrap();
    assert_eq!(c.room().player_name(&text("p1")), Some(&text("Alice")));
    c.receive_as_client(Message::PlayerLeave(PlayerLeaveMessage { id: text("p1") })).unwrap();
    assert_eq!(c.room().player_name(&text("p1")), None);
    assert_eq!(c.room().player_count(), 0);
}

#[test]
fn client_refuses_what_it_cannot_handle() {
    let mut c = Session::new(board(2));
    c.join(text("ripoff-robots-1")).unwrap();
    let r = c.receive_as_client(Message::StartBid(StartBidMessage { end_time: 5 }));
    assert_eq!(r, Err(ProtocolError::Unsupported));
    let r = c.receive_as_client(Message::StartEval(StartEvalMessage { player: text("p") }));
    assert_eq!(r, Err(ProtocolError::Unsupported));
    let bad = Board { width: 4, horizontal_walls: vec![false; 5], vertical_walls: vec![], initial_positions: [0; 5] };
    let r = c.receive_as_client(Message::BoardState(BoardStateMessage { board: bad }));
    assert_eq!(r, Err(ProtocolError::Malformed));
    assert_eq!(c.board().width, 16);
    let mut idle = Session::new(board(2));
    let join = PlayerJoinMessage { ids: vec![text("p1")], names: vec![text("A")], scores: vec![0] };
    assert_eq!(idle.receive_as_client(Message::PlayerJoin(join)), Err(ProtocolError::Unsupported));
    assert_eq!(idle.room().player_count(), 0);
}

#[test]
fn bidding_round() {
    let mut h = host_with(&[("p1", "Alice"), ("p2", "Bob")]);
    let out = h.start_bid(1000);
    assert!(matches!(out[0].message, Message::StartBid(StartBidMessage { end_time: 1000 })));
    let out = h.receive_as_host(&text("p1"), Message::MakeBid(MakeBidMessage { bid: 7 }), 5).unwrap();
    assert_eq!(out[0].to, vec![text("p1"), text("p2")]);
    assert!(matches!(&out[0].message, Message::UpdateBid(UpdateBidMessage { player, bid: 7 }) if player == "p1"));
    h.receive_as_host(&text("p2"), Message::MakeBid(MakeBidMessage { bid: 7 }), 3).unwrap();
    h.receive_as_host(&text("p1"), Message::MakeBid(MakeBidMessage { bid: 5 }), 10).unwrap();
    let mut order = Vec::new();
    while let Some(o) = h.next_eval() {
        match o.message {
            Message::StartEval(m) => order.push(m.player),
            _ => panic!("expected an evaluation"),
        }
    }
    assert_eq!(order, vec![text("p2"), text("p1"), text("p1")]);
    let r = h.receive_as_host(&text("p1"), Message::PlayerLeave(PlayerLeaveMessage { id: text("x") }), 1);
    assert!(matches!(r, Err(ProtocolError::Unsupported)));
}

#[test]
fn closing_host_says_goodbye_and_empties_the_room() {
    let mut h = host_with(&[("p1", "Alice"), ("p2", "Bob")]);
    h.receive_as_host(&text("p1"), Message::MakeBid(MakeBidMessage { bid: 2 }), 1).unwrap();
    let out = h.close();
    assert_eq!(out.len(), 2);
    assert!(matches!(&out[0].message, Message::PlayerLeave(m) if m.id == "p1"));
    assert!(matches!(&out[1].message, Message::PlayerLeave(m) if m.id == "p2"));
    assert!(matches!(h.state(), NetworkState::Idle));
    assert_eq!(h.room().player_count(), 0);
    assert_eq!(h.room().bid_count(), 0);
    assert!(h.host(text("Hana")).is_ok());
}

#[test]
fn closing_client_goes_idle() {
    let mut c = Session::new(board(2));
    c.join(text("ripoff-robots-1")).unwrap();
    let join = PlayerJoinMessage { ids: vec![text("p1")], names: vec![text("A")], scores: vec![2] };
    c.receive_as_client(Message::PlayerJoin(join)).unwrap();
    assert!(c.close().is_empty());
    assert!(matches!(c.state(), NetworkState::Idle));
    assert_eq!(c.room().player_count(), 0);
    assert!(MIN_SIDE <= 16);
}
