//! The messages that participants of a session exchange.
use vstd::prelude::*;
use crate::board::Board;

verus! {

/// Every message, tagged by its kind.
pub enum Message {
    PlayerJoin(PlayerJoinMessage),
    PlayerLeave(PlayerLeaveMessage),
    BoardState(BoardStateMessage),
    StartBid(StartBidMessage),
    UpdateBid(UpdateBidMessage),
    MakeBid(MakeBidMessage),
    StartEval(StartEvalMessage),
}

/// Sent when players join, and to a newcomer as the whole roster: entry `i`
/// of each list belongs to the same player.
///
/// Host -> All Clients
pub struct PlayerJoinMessage {
    pub ids: Vec<String>,
    pub names: Vec<String>,
    pub scores: Vec<u32>,
}

/// Sent when a player leaves.
///
/// Host -> All Clients
pub struct PlayerLeaveMessage {
    pub id: String,
}

/// Sent when the board changes, and to a newcomer.
///
/// Host -> Client(s)
pub struct BoardStateMessage {
    pub board: Board,
}

/// Sent when the bidding phase begins.
///
/// Host -> All Clients
pub struct StartBidMessage {
    pub end_time: u64,
}

/// Sent when a new bid is made.
///
/// Client -> Host
pub struct MakeBidMessage {
    pub bid: u8,
}

/// Sent when a new bid is made.
///
/// Host -> All Clients
pub struct UpdateBidMessage {
    /// The ID of the player
    pub player: String,
    pub bid: u8,
}

/// Sent when a player's bid is up for evaluation.
///
/// Host -> All Clients
pub struct StartEvalMessage {
    pub player: String,
}

} // verus!
