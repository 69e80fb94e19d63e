//! The session: a host that owns the board and the room, and clients that
//! mirror them. Each handler takes one transport event and returns the
//! messages to send; nothing here touches the network.
use vstd::prelude::*;
use crate::board::Board;
use crate::board::same_board;
use crate::net::BoardStateMessage;
use crate::net::Message;
use crate::net::PlayerJoinMessage;
use crate::net::PlayerLeaveMessage;
use crate::net::StartBidMessage;
use crate::net::StartEvalMessage;
use crate::net::UpdateBidMessage;
use crate::room::Bid;
use crate::room::RoomState;
use crate::room::is_first;
use crate::room::is_roster;
use crate::room::join_len;
use crate::room::join_players;
use crate::room::join_scores;
use crate::room::lemma_roster_rebuilds;
use crate::room::score_of;

verus! {

/// Where a participant stands: in no session, connected to a host (whose
/// peer identity is held), or hosting the connections it holds.
pub enum NetworkState {
    Idle,
    Client(String),
    Server { conns: Vec<String>, initialized: bool },
}

/// A message and the peers it goes to.
pub struct Outgoing {
    pub to: Vec<String>,
    pub message: Message,
}

#[derive(Clone, Copy, Debug, PartialEq, Eq, Structural)]
pub enum SessionError {
    /// A session is already running.
    Busy,
}

#[derive(Clone, Copy, Debug, PartialEq, Eq, Structural)]
pub enum ProtocolError {
    /// The message carries a board whose walls do not fit its size.
    Malformed,
    /// This participant has no handler for that kind of message.
    Unsupported,
}

/// The identity under which the host lists itself.
pub open spec fn host_identity() -> Seq<char> {
    "host"@
}

/// The name of a player who gave none.
pub open spec fn anonymous_name() -> Seq<char> {
    "Anonymous"@
}

/// The prefix of every room's listener identity.
pub open spec fn room_prefix() -> Seq<char> {
    "ripoff-robots-"@
}

/// The connections a state holds.
pub open spec fn conns_of(state: NetworkState) -> Seq<String> {
    match state {
        NetworkState::Server { conns, .. } => conns@,
        _ => Seq::empty(),
    }
}

/// `conns` without any connection of `peer`.
pub open spec fn without(conns: Seq<String>, peer: Seq<char>) -> Seq<String> {
    conns.filter(|c: String| c@ != peer)
}

/// The name under which a newcomer is listed: the one it gave, or
/// "Anonymous".
pub open spec fn display_name(name: Option<String>) -> Seq<char> {
    match name {
        Some(n) => n@,
        None => anonymous_name(),
    }
}

/// Whether `state` is hosting with no connection yet and not set up.
pub open spec fn fresh_server(state: NetworkState) -> bool {
    state matches NetworkState::Server { conns, initialized } && conns@.len() == 0 && !initialized
}

/// Whether `state` is hosting and has been set up.
pub open spec fn initialized_of(state: NetworkState) -> bool {
    state matches NetworkState::Server { initialized, .. } && initialized
}

/// The listener identity of the room whose suffix is `suffix`.
pub fn room_peer_id(suffix: &str) -> (r: String)
    ensures
        r@ == room_prefix() + suffix@,
{
    let mut r = "ripoff-robots-".to_owned();
    r.append(suffix);
    r
}

fn copy_ids(v: &Vec<String>) -> (r: Vec<String>)
    ensures
        r@ == v@,
{
    let mut r: Vec<String> = Vec::new();
    let mut i: usize = 0;
    while i < v.len()
        invariant
            i <= v@.len(),
            r@ == v@.subrange(0, i as int),
        decreases v@.len() - i,
    {
        r.push(v[i].clone());
        i += 1;
        assert(r@ =~= v@.subrange(0, i as int));
    }
    assert(r@ =~= v@);
    r
}

fn one(s: String) -> (r: Vec<String>)
    ensures
        r@ == seq![s],
{
    let mut r: Vec<String> = Vec::new();
    r.push(s);
    assert(r@ =~= seq![s]);
    r
}

fn drop_peer(conns: &Vec<String>, peer: &String) -> (r: Vec<String>)
    ensures
        r@ == without(conns@, peer@),
{
    let mut r: Vec<String> = Vec::new();
    let mut i: usize = 0;
    while i < conns.len()
        invariant
            i <= conns@.len(),
            r@ == without(conns@.subrange(0, i as int), peer@),
        decreases conns@.len() - i,
    {
        let ghost before = conns@.subrange(0, i as int);
        assert(conns@.subrange(0, i + 1) =~= before.push(conns@[i as int]));
        proof {
            before.lemma_filter_push(conns@[i as int], |c: String| c@ != peer@);
        }
        if conns[i] != *peer {
            r.push(conns[i].clone());
        }
        i += 1;
    }
    assert(conns@.subrange(0, conns@.len() as int) =~= conns@);
    r
}

pub struct Session {
    state: NetworkState,
    room: RoomState,
    board: Board,
}

impl Session {
    /// The room is well formed, the board too, and a participant in no
    /// session has an empty room.
    pub closed spec fn wf(&self) -> bool {
        &&& self.room.wf()
        &&& self.board.wf()
        &&& self.state is Idle ==> self.room.is_empty()
    }

    pub closed spec fn net(&self) -> NetworkState {
        self.state
    }

    pub closed spec fn room_spec(&self) -> RoomState {
        self.room
    }

    pub closed spec fn board_spec(&self) -> Board {
        self.board
    }

    pub open spec fn is_idle(&self) -> bool {
        self.net() is Idle
    }

    pub open spec fn is_client(&self) -> bool {
        self.net() is Client
    }

    pub open spec fn is_server(&self) -> bool {
        self.net() is Server
    }

    /// In no session an empty room is all there is.
    pub proof fn lemma_idle_room_empty(&self)
        requires
            self.wf(),
        ensures
            self.is_idle() ==> self.room_spec().is_empty(),
            self.room_spec().wf(),
            self.board_spec().wf(),
    {
    }

    /// A newcomer that starts with an empty room and takes in the board and
    /// the roster that a host sends when its connection opens, ends with
    /// the host's board, the host's players, and the host's score for every
    /// identity.
    pub proof fn lemma_late_join_sync(host: Session, board: Board, roster: PlayerJoinMessage)
        requires
            host.wf(),
            same_board(board, host.board_spec()),
            is_roster(host.room_spec().players_view(), host.room_spec().scores_view(), roster),
        ensures
            board.wf(),
            same_board(board, host.board_spec()),
            join_players(Map::empty(), roster.ids@, roster.names@, join_len(roster)) == host.room_spec().players_view(),
            forall|k: Seq<char>| score_of(join_scores(Map::empty(), roster.ids@, roster.scores@, join_len(roster)), k)
                == #[trigger] score_of(host.room_spec().scores_view(), k),
    {
        host.room.lemma_wf_scores();
        lemma_roster_rebuilds(host.room_spec().players_view(), host.room_spec().scores_view(), roster);
    }

    /// A participant in no session, with `board` in front of them.
    pub fn new(board: Board) -> (r: Session)
        requires
            board.wf(),
        ensures
            r.wf(),
            r.is_idle(),
            r.room_spec().is_empty(),
            r.board_spec() == board,
    {
        Session { state: NetworkState::Idle, room: RoomState::new(), board }
    }

    /// Starts hosting, with the host listed under `name`. Refused while a
    /// session runs.
    pub fn host(&mut self, name: String) -> (r: Result<(), SessionError>)
        requires
            old(self).wf(),
        ensures
            final(self).wf(),
            r is Err <==> !old(self).is_idle(),
            r is Err ==> *final(self) == *old(self),
            r is Ok ==> {
                &&& fresh_server(final(self).net())
                &&& final(self).room_spec().players_view() == old(self).room_spec().players_view().insert(host_identity(), name)
                &&& final(self).room_spec().scores_view() == old(self).room_spec().scores_view()
                &&& final(self).room_spec().bids_view() == old(self).room_spec().bids_view()
                &&& final(self).board_spec() == old(self).board_spec()
            },
    {
        if !matches!(self.state, NetworkState::Idle) {
            return Err(SessionError::Busy);
        }
        self.state = NetworkState::Server { conns: Vec::new(), initialized: false };
        let id = "host".to_owned();
        proof {
            reveal_strlit("host");
        }
        self.room.add_player(id, name);
        Ok(())
    }

    /// Starts a session as a client of the host `host_id`. Refused while a
    /// session runs.
    pub fn join(&mut self, host_id: String) -> (r: Result<(), SessionError>)
        requires
            old(self).wf(),
        ensures
            final(self).wf(),
            r is Err <==> !old(self).is_idle(),
            r is Err ==> *final(self) == *old(self),
            r is Ok ==> {
                &&& final(self).net() == NetworkState::Client(host_id)
                &&& final(self).room_spec() == old(self).room_spec()
                &&& final(self).board_spec() == old(self).board_spec()
            },
    {
        if !matches!(self.state, NetworkState::Idle) {
            return Err(SessionError::Busy);
        }
        self.state = NetworkState::Client(host_id);
        Ok(())
    }

    /// The host's listener is set up. Nothing changes elsewhere.
    pub fn listener_ready(&mut self)
        requires
            old(self).wf(),
        ensures
            final(self).wf(),
            final(self).is_server() == old(self).is_server(),
            final(self).is_idle() == old(self).is_idle(),
            old(self).is_server() ==> initialized_of(final(self).net())
                && conns_of(final(self).net()) == conns_of(old(self).net()),
            !old(self).is_server() ==> *final(self) == *old(self),
            final(self).room_spec() == old(self).room_spec(),
            final(self).board_spec() == old(self).board_spec(),
    {
        match &mut self.state {
            NetworkState::Server { initialized, .. } => {
                *initialized = true;
            },
            _ => {},
        }
    }

    /// A peer connected to the host, giving `name` (or none). The peers
    /// already connected hear that it joined with score 0; then it is added
    /// to the connections, and to the room with score 0.
    pub fn peer_connected(&mut self, peer: String, name: Option<String>) -> (out: Vec<Outgoing>)
        requires
            old(self).wf(),
        ensures
            final(self).wf(),
            final(self).is_idle() == old(self).is_idle(),
            !old(self).is_server() ==> out@.len() == 0 && *final(self) == *old(self),
            old(self).is_server() ==> {
                &&& final(self).is_server()
                &&& out@.len() == 1
                &&& out@[0].to@ == conns_of(old(self).net())
                &&& out@[0].message matches Message::PlayerJoin(m) && m.ids@ == seq![peer]
                    && m.names@.len() == 1 && m.names@[0]@ == display_name(name) && m.scores@ == seq![0u32]
                    && final(self).room_spec().players_view() == old(self).room_spec().players_view().insert(peer@, m.names@[0])
                &&& conns_of(final(self).net()) == conns_of(old(self).net()).push(peer)
                &&& initialized_of(final(self).net()) == initialized_of(old(self).net())
                &&& final(self).room_spec().scores_view() == old(self).room_spec().scores_view().insert(peer@, 0)
                &&& final(self).room_spec().bids_view() == old(self).room_spec().bids_view()
                &&& final(self).board_spec() == old(self).board_spec()
            },
    {
        let mut out: Vec<Outgoing> = Vec::new();
        match &mut self.state {
            NetworkState::Server { conns, .. } => {
                let name = match name {
                    Some(n) => n,
                    None => {
                        proof {
                            reveal_strlit("Anonymous");
                        }
                        "Anonymous".to_owned()
                    },
                };
                let message = Message::PlayerJoin(PlayerJoinMessage {
                    ids: one(peer.clone()),
                    names: one(name.clone()),
                    scores: vec![0u32],
                });
                out.push(Outgoing { to: copy_ids(conns), message });
                conns.push(peer.clone());
                self.room.upsert_player(peer, name, 0);
            },
            _ => {},
        }
        out
    }

    /// A newcomer's connection opened: it gets the board, then the whole
    /// roster with the current scores.
    pub fn peer_opened(&self, peer: &String) -> (out: Vec<Outgoing>)
        requires
            self.wf(),
        ensures
            !self.is_server() ==> out@.len() == 0,
            self.is_server() ==> {
                &&& out@.len() == 2
                &&& out@[0].to@ == seq![*peer]
                &&& out@[0].message matches Message::BoardState(m) && same_board(m.board, self.board_spec())
                &&& out@[1].to@ == seq![*peer]
                &&& out@[1].message matches Message::PlayerJoin(m)
                    && is_roster(self.room_spec().players_view(), self.room_spec().scores_view(), m)
            },
    {
        let mut out: Vec<Outgoing> = Vec::new();
        if let NetworkState::Server { .. } = &self.state {
            let board = Message::BoardState(BoardStateMessage { board: self.board.snapshot() });
            out.push(Outgoing { to: one(peer.clone()), message: board });
            let roster = Message::PlayerJoin(self.room.roster());
            out.push(Outgoing { to: one(peer.clone()), message: roster });
        }
        out
    }

    /// A peer's connection closed: it leaves the connections, the others
    /// hear that it left, and it leaves the room with its score.
    pub fn peer_closed(&mut self, peer: &String) -> (out: Vec<Outgoing>)
        requires
            old(self).wf(),
        ensures
            final(self).wf(),
            final(self).is_idle() == old(self).is_idle(),
            !old(self).is_server() ==> out@.len() == 0 && *final(self) == *old(self),
            old(self).is_server() ==> {
                &&& final(self).is_server()
                &&& conns_of(final(self).net()) == without(conns_of(old(self).net()), peer@)
                &&& initialized_of(final(self).net()) == initialized_of(old(self).net())
                &&& out@.len() == 1
                &&& out@[0].to@ == conns_of(final(self).net())
                &&& out@[0].message matches Message::PlayerLeave(m) && m.id@ == peer@
                &&& final(self).room_spec().players_view() == old(self).room_spec().players_view().remove(peer@)
                &&& final(self).room_spec().scores_view() == old(self).room_spec().scores_view().remove(peer@)
                &&& final(self).room_spec().bids_view() == old(self).room_spec().bids_view()
                &&& final(self).board_spec() == old(self).board_spec()
            },
    {
        let mut out: Vec<Outgoing> = Vec::new();
        match &mut self.state {
            NetworkState::Server { conns, .. } => {
                let rest = drop_peer(conns, peer);
                *conns = rest;
                let message = Message::PlayerLeave(PlayerLeaveMessage { id: peer.clone() });
                out.push(Outgoing { to: copy_ids(conns), message });
                self.room.remove_player(peer);
            },
            _ => {},
        }
        out
    }

    /// A client takes in a message from its host: a board replaces its
    /// own, a roster is stored entry by entry, a departure is removed.
    /// Other kinds, a board whose walls do not fit its size, and any message
    /// when not a client are refused and change nothing.
    pub fn receive_as_client(&mut self, msg: Message) -> (r: Result<(), ProtocolError>)
        requires
            old(self).wf(),
        ensures
            final(self).wf(),
            final(self).net() == old(self).net(),
            r is Err ==> *final(self) == *old(self),
            !old(self).is_client() ==> r == Err::<(), ProtocolError>(ProtocolError::Unsupported),
            old(self).is_client() ==> match msg {
                Message::BoardState(m) => if m.board.wf() {
                    r is Ok && final(self).board_spec() == m.board && final(self).room_spec() == old(self).room_spec()
                } else {
                    r == Err::<(), ProtocolError>(ProtocolError::Malformed)
                },
                Message::PlayerJoin(m) => {
                    &&& r is Ok
                    &&& final(self).room_spec().players_view() == join_players(old(self).room_spec().players_view(), m.ids@, m.names@, join_len(m))
                    &&& final(self).room_spec().scores_view() == join_scores(old(self).room_spec().scores_view(), m.ids@, m.scores@, join_len(m))
                    &&& final(self).room_spec().bids_view() == old(self).room_spec().bids_view()
                    &&& final(self).board_spec() == old(self).board_spec()
                },
                Message::PlayerLeave(m) => {
                    &&& r is Ok
                    &&& final(self).room_spec().players_view() == old(self).room_spec().players_view().remove(m.id@)
                    &&& final(self).room_spec().scores_view() == old(self).room_spec().scores_view().remove(m.id@)
                    &&& final(self).room_spec().bids_view() == old(self).room_spec().bids_view()
                    &&& final(self).board_spec() == old(self).board_spec()
                },
                _ => r == Err::<(), ProtocolError>(ProtocolError::Unsupported),
            },
    {
        if !matches!(self.state, NetworkState::Client(_)) {
            return Err(ProtocolError::Unsupported);
        }
        match msg {
            Message::BoardState(m) => {
                if !m.board.is_well_formed() {
                    return Err(ProtocolError::Malformed);
                }
                self.board = m.board;
                Ok(())
            },
            Message::PlayerJoin(m) => {
                self.room.apply_join(m);
                Ok(())
            },
            Message::PlayerLeave(m) => {
                self.room.remove_player(&m.id);
                Ok(())
            },
            _ => Err(ProtocolError::Unsupported),
        }
    }

    /// The host takes in a message from peer `from` at time `now`: a bid is
    /// stamped with `now`, added to the round, and announced to every peer.
    /// Other kinds, and any message when not hosting, are refused and change
    /// nothing.
    pub fn receive_as_host(&mut self, from: &String, msg: Message, now: u32) -> (r: Result<Vec<Outgoing>, ProtocolError>)
        requires
            old(self).wf(),
        ensures
            final(self).wf(),
            final(self).net() == old(self).net(),
            r is Err ==> *final(self) == *old(self),
            !old(self).is_server() ==> r is Err && r->Err_0 == ProtocolError::Unsupported,
            old(self).is_server() ==> match msg {
                Message::MakeBid(m) => r matches Ok(out) && {
                    &&& final(self).room_spec().bids_view() == old(self).room_spec().bids_view().push(
                        Bid { timestamp: now, bid: m.bid as u32, name: *from })
                    &&& final(self).room_spec().players_view() == old(self).room_spec().players_view()
                    &&& final(self).room_spec().scores_view() == old(self).room_spec().scores_view()
                    &&& final(self).board_spec() == old(self).board_spec()
                    &&& out@.len() == 1
                    &&& out@[0].to@ == conns_of(old(self).net())
                    &&& out@[0].message matches Message::UpdateBid(u) && u.player == *from && u.bid == m.bid
                },
                _ => r is Err && r->Err_0 == ProtocolError::Unsupported,
            },
    {
        let to = match &self.state {
            NetworkState::Server { conns, .. } => copy_ids(conns),
            _ => {
                return Err(ProtocolError::Unsupported);
            },
        };
        match msg {
            Message::MakeBid(m) => {
                self.room.push_bid(Bid::new(now, m.bid as u32, from.clone()));
                let message = Message::UpdateBid(UpdateBidMessage { player: from.clone(), bid: m.bid });
                let mut out: Vec<Outgoing> = Vec::new();
                out.push(Outgoing { to, message });
                Ok(out)
            },
            _ => Err(ProtocolError::Unsupported),
        }
    }

    /// Opens a bidding round that ends at `end_time`: the bids are cleared
    /// and every peer hears of it.
    pub fn start_bid(&mut self, end_time: u64) -> (out: Vec<Outgoing>)
        requires
            old(self).wf(),
        ensures
            final(self).wf(),
            final(self).net() == old(self).net(),
            !old(self).is_server() ==> out@.len() == 0 && *final(self) == *old(self),
            old(self).is_server() ==> {
                &&& final(self).room_spec().bids_view() == Seq::<Bid>::empty()
                &&& final(self).room_spec().players_view() == old(self).room_spec().players_view()
                &&& final(self).room_spec().scores_view() == old(self).room_spec().scores_view()
                &&& final(self).board_spec() == old(self).board_spec()
                &&& out@.len() == 1
                &&& out@[0].to@ == conns_of(old(self).net())
                &&& out@[0].message matches Message::StartBid(m) && m.end_time == end_time
            },
    {
        let mut out: Vec<Outgoing> = Vec::new();
        if let NetworkState::Server { conns, .. } = &self.state {
            let to = copy_ids(conns);
            self.room.clear_bids();
            out.push(Outgoing { to, message: Message::StartBid(StartBidMessage { end_time }) });
        }
        out
    }

    /// Takes the bid that comes first out of the round and tells every peer
    /// whose bid is now evaluated. Nothing when not hosting or when no bid
    /// is left.
    pub fn next_eval(&mut self) -> (out: Option<Outgoing>)
        requires
            old(self).wf(),
        ensures
            final(self).wf(),
            final(self).net() == old(self).net(),
            final(self).room_spec().players_view() == old(self).room_spec().players_view(),
            final(self).room_spec().scores_view() == old(self).room_spec().scores_view(),
            final(self).board_spec() == old(self).board_spec(),
            out is None <==> !old(self).is_server() || old(self).room_spec().bids_view().len() == 0,
            out is None ==> *final(self) == *old(self),
            out matches Some(o) ==> exists|i: int| {
                &&& is_first(old(self).room_spec().bids_view(), i)
                &&& final(self).room_spec().bids_view() == old(self).room_spec().bids_view().remove(i)
                &&& o.to@ == conns_of(old(self).net())
                &&& o.message matches Message::StartEval(m) && m.player == old(self).room_spec().bids_view()[i].name
            },
    {
        let to = match &self.state {
            NetworkState::Server { conns, .. } => copy_ids(conns),
            _ => {
                return None;
            },
        };
        if self.room.bid_count() == 0 {
            return None;
        }
        match self.room.pop_bid() {
            Some(b) => Some(Outgoing { to, message: Message::StartEval(StartEvalMessage { player: b.name }) }),
            None => None,
        }
    }

    /// Puts `board` in front of everyone: a host sends it to every peer.
    pub fn set_board(&mut self, board: Board) -> (out: Vec<Outgoing>)
        requires
            old(self).wf(),
            board.wf(),
        ensures
            final(self).wf(),
            final(self).net() == old(self).net(),
            final(self).room_spec() == old(self).room_spec(),
            final(self).board_spec() == board,
            !old(self).is_server() ==> out@.len() == 0,
            old(self).is_server() ==> {
                &&& out@.len() == 1
                &&& out@[0].to@ == conns_of(old(self).net())
                &&& out@[0].message matches Message::BoardState(m) && same_board(m.board, board)
            },
    {
        let mut out: Vec<Outgoing> = Vec::new();
        if let NetworkState::Server { conns, .. } = &self.state {
            let message = Message::BoardState(BoardStateMessage { board: board.snapshot() });
            out.push(Outgoing { to: copy_ids(conns), message });
        }
        self.board = board;
        out
    }

    /// Ends the session, the one way back to no session: a host first tells
    /// every peer that each connection leaves; then the room is emptied.
    pub fn close(&mut self) -> (out: Vec<Outgoing>)
        requires
            old(self).wf(),
        ensures
            final(self).wf(),
            final(self).is_idle(),
            final(self).room_spec().is_empty(),
            final(self).board_spec() == old(self).board_spec(),
            out@.len() == conns_of(old(self).net()).len(),
            forall|i: int| 0 <= i < out@.len() ==> {
                &&& (#[trigger] out@[i]).to@ == conns_of(old(self).net())
                &&& out@[i].message matches Message::PlayerLeave(m) && m.id@ == conns_of(old(self).net())[i]@
            },
    {
        let mut out: Vec<Outgoing> = Vec::new();
        if let NetworkState::Server { conns, .. } = &self.state {
            let mut i: usize = 0;
            while i < conns.len()
                invariant
                    conns@ == conns_of(self.net()),
                    i <= conns@.len(),
                    out@.len() == i,
                    forall|j: int| 0 <= j < i ==> {
                        &&& (#[trigger] out@[j]).to@ == conns@
                        &&& out@[j].message matches Message::PlayerLeave(m) && m.id@ == conns@[j]@
                    },
                decreases conns@.len() - i,
            {
                let message = Message::PlayerLeave(PlayerLeaveMessage { id: conns[i].clone() });
                out.push(Outgoing { to: copy_ids(conns), message });
                i += 1;
            }
        }
        self.room.clear();
        self.state = NetworkState::Idle;
        out
    }

    pub fn state(&self) -> (r: &NetworkState)
        ensures
            *r == self.net(),
    {
        &self.state
    }

    pub fn room(&self) -> (r: &RoomState)
        ensures
            *r == self.room_spec(),
    {
        &self.room
    }

    pub fn board(&self) -> (r: &Board)
        ensures
            *r == self.board_spec(),
    {
        &self.board
    }
}

} // verus!
