//! The room: who is in it, their scores, and the bids of the current round.
use vstd::prelude::*;
use core::cmp::Ordering;
use crate::net::PlayerJoinMessage;
use crate::strmap::StrMap;

verus! {

/// A bid of `bid` moves, made at `timestamp` by the player `name`.
pub struct Bid {
    pub timestamp: u32,
    pub bid: u32,
    pub name: String,
}

/// Whether bid `a` comes before bid `b`: it is higher, or it is the same bid
/// made earlier.
pub open spec fn outranks(a: Bid, b: Bid) -> bool {
    a.bid > b.bid || (a.bid == b.bid && a.timestamp < b.timestamp)
}

/// How bid `a` compares with bid `b`: `Greater` when `a` comes first.
pub open spec fn rank_cmp(a: Bid, b: Bid) -> Ordering {
    if outranks(a, b) {
        Ordering::Greater
    } else if outranks(b, a) {
        Ordering::Less
    } else {
        Ordering::Equal
    }
}

impl Bid {
    pub fn new(timestamp: u32, bid: u32, name: String) -> (r: Bid)
        ensures
            r.timestamp == timestamp,
            r.bid == bid,
            r.name == name,
    {
        Bid { timestamp, bid, name }
    }

    /// Whether this bid comes before `other`.
    pub fn outranks(&self, other: &Bid) -> (r: bool)
        ensures
            r == outranks(*self, *other),
    {
        self.bid > other.bid || (self.bid == other.bid && self.timestamp < other.timestamp)
    }
}

impl PartialEq for Bid {
    /// Two bids are equal when they rank the same: the same bid, made at the
    /// same time.
    fn eq(&self, other: &Bid) -> (r: bool) {
        self.bid == other.bid && self.timestamp == other.timestamp
    }
}

impl vstd::std_specs::cmp::PartialEqSpecImpl for Bid {
    open spec fn obeys_eq_spec() -> bool {
        true
    }

    open spec fn eq_spec(&self, other: &Bid) -> bool {
        self.bid == other.bid && self.timestamp == other.timestamp
    }
}

impl PartialOrd for Bid {
    /// A higher bid is greater; of two equal bids the earlier is greater.
    fn partial_cmp(&self, other: &Bid) -> (r: Option<Ordering>) {
        Some(
            if self.bid < other.bid {
                Ordering::Less
            } else if self.bid > other.bid {
                Ordering::Greater
            } else if self.timestamp > other.timestamp {
                Ordering::Less
            } else if self.timestamp < other.timestamp {
                Ordering::Greater
            } else {
                Ordering::Equal
            },
        )
    }
}

impl vstd::std_specs::cmp::PartialOrdSpecImpl for Bid {
    open spec fn obeys_partial_cmp_spec() -> bool {
        true
    }

    open spec fn partial_cmp_spec(&self, other: &Bid) -> Option<Ordering> {
        Some(rank_cmp(*self, *other))
    }
}

/// Index `i` holds the bid that comes first in `s`, and the earliest
/// inserted of those that rank the same.
pub open spec fn is_first(s: Seq<Bid>, i: int) -> bool {
    &&& 0 <= i < s.len()
    &&& forall|j: int| 0 <= j < s.len() ==> !outranks(#[trigger] s[j], s[i])
    &&& forall|j: int| 0 <= j < i ==> outranks(s[i], #[trigger] s[j])
}

/// The bids of a round, handed out highest first.
pub struct BidQueue {
    items: Vec<Bid>,
}

impl BidQueue {
    /// The bids, in the order they came in.
    pub closed spec fn view(&self) -> Seq<Bid> {
        self.items@
    }

    pub fn new() -> (r: BidQueue)
        ensures
            r.view() == Seq::<Bid>::empty(),
    {
        BidQueue { items: Vec::new() }
    }

    pub fn len(&self) -> (r: usize)
        ensures
            r == self.view().len(),
    {
        self.items.len()
    }

    pub fn push(&mut self, bid: Bid)
        ensures
            final(self).view() == old(self).view().push(bid),
    {
        self.items.push(bid);
    }

    pub fn clear(&mut self)
        ensures
            final(self).view() == Seq::<Bid>::empty(),
    {
        self.items.clear();
    }

    /// The index of the bid that comes first.
    fn first_index(&self) -> (r: usize)
        requires
            self.view().len() > 0,
        ensures
            is_first(self.view(), r as int),
    {
        let mut best: usize = 0;
        let mut j: usize = 1;
        while j < self.items.len()
            invariant
                1 <= j <= self.items@.len(),
                best < j,
                forall|k: int| 0 <= k < j ==> !outranks(#[trigger] self.items@[k], self.items@[best as int]),
                forall|k: int| 0 <= k < best ==> outranks(self.items@[best as int], #[trigger] self.items@[k]),
            decreases self.items@.len() - j,
        {
            if self.items[j].outranks(&self.items[best]) {
                best = j;
            }
            j += 1;
        }
        best
    }

    /// The bid that comes first, if any.
    pub fn peek(&self) -> (r: Option<&Bid>)
        ensures
            r is None <==> self.view().len() == 0,
            r matches Some(b) ==> exists|i: int| is_first(self.view(), i) && self.view()[i] == *b,
    {
        if self.items.len() == 0 {
            None
        } else {
            let i = self.first_index();
            Some(&self.items[i])
        }
    }

    /// Takes out the bid that comes first: the highest, and of equal bids
    /// the earliest made.
    pub fn pop(&mut self) -> (r: Option<Bid>)
        ensures
            r is None <==> old(self).view().len() == 0,
            r is None ==> final(self).view() == old(self).view(),
            r matches Some(b) ==> exists|i: int| is_first(old(self).view(), i)
                && old(self).view()[i] == b && final(self).view() == old(self).view().remove(i),
    {
        if self.items.len() == 0 {
            None
        } else {
            let i = self.first_index();
            let b = self.items.remove(i);
            Some(b)
        }
    }
}

/// The score of `id`; a player with no entry has 0.
pub open spec fn score_of(scores: Map<Seq<char>, u32>, id: Seq<char>) -> u32 {
    if scores.contains_key(id) {
        scores[id]
    } else {
        0
    }
}

/// The players after the first `n` entries of a join message are stored.
pub open spec fn join_players(players: Map<Seq<char>, String>, ids: Seq<String>, names: Seq<String>, n: nat) -> Map<Seq<char>, String>
    decreases n,
{
    if n == 0 {
        players
    } else {
        join_players(players, ids, names, (n - 1) as nat).insert(ids[n - 1]@, names[n - 1])
    }
}

/// The scores after the first `n` entries of a join message are stored.
pub open spec fn join_scores(scores: Map<Seq<char>, u32>, ids: Seq<String>, values: Seq<u32>, n: nat) -> Map<Seq<char>, u32>
    decreases n,
{
    if n == 0 {
        scores
    } else {
        join_scores(scores, ids, values, (n - 1) as nat).insert(ids[n - 1]@, values[n - 1])
    }
}

/// How many entries of a join message are complete (an id, a name and a
/// score).
pub open spec fn join_len(msg: PlayerJoinMessage) -> nat {
    let (a, b, c) = (msg.ids@.len(), msg.names@.len(), msg.scores@.len());
    if a <= b && a <= c {
        a
    } else if b <= c {
        b
    } else {
        c
    }
}

/// `msg` lists every player of `players` once, with its name and its score.
pub open spec fn is_roster(players: Map<Seq<char>, String>, scores: Map<Seq<char>, u32>, msg: PlayerJoinMessage) -> bool {
    let n = msg.ids@.len();
    &&& msg.names@.len() == n
    &&& msg.scores@.len() == n
    &&& forall|i: int, j: int| 0 <= i < n && 0 <= j < n && i != j ==> (#[trigger] msg.ids@[i])@ != (#[trigger] msg.ids@[j])@
    &&& forall|k: Seq<char>| players.contains_key(k) ==> exists|i: int| 0 <= i < n && (#[trigger] msg.ids@[i])@ == k
    &&& forall|i: int| 0 <= i < n ==> {
        let k = (#[trigger] msg.ids@[i])@;
        &&& players.contains_key(k)
        &&& msg.names@[i] == players[k]
        &&& msg.scores@[i] == score_of(scores, k)
    }
}

pub struct RoomState {
    players: StrMap<String>,
    scores: StrMap<u32>,
    bids: BidQueue,
}

impl RoomState {
    /// Both maps are well formed, and only players have scores.
    pub closed spec fn wf(&self) -> bool {
        &&& self.players.wf()
        &&& self.scores.wf()
        &&& self.scores.view().dom().subset_of(self.players.view().dom())
    }

    /// Each player's display name, by identity.
    pub closed spec fn players_view(&self) -> Map<Seq<char>, String> {
        self.players.view()
    }

    /// The scores that have been recorded, by identity.
    pub closed spec fn scores_view(&self) -> Map<Seq<char>, u32> {
        self.scores.view()
    }

    /// The bids of the current round, in the order they came in.
    pub closed spec fn bids_view(&self) -> Seq<Bid> {
        self.bids.view()
    }

    /// Nobody in the room, no scores and no bids.
    pub open spec fn is_empty(&self) -> bool {
        &&& self.players_view() == Map::<Seq<char>, String>::empty()
        &&& self.scores_view() == Map::<Seq<char>, u32>::empty()
        &&& self.bids_view() == Seq::<Bid>::empty()
    }

    pub proof fn lemma_wf_scores(&self)
        requires
            self.wf(),
        ensures
            self.scores_view().dom().subset_of(self.players_view().dom()),
    {
    }

    /// An empty room.
    pub fn new() -> (r: RoomState)
        ensures
            r.wf(),
            r.is_empty(),
    {
        RoomState { players: StrMap::new(), scores: StrMap::new(), bids: BidQueue::new() }
    }

    /// The display name of `id`, if they are in the room.
    pub fn player_name(&self, id: &String) -> (r: Option<&String>)
        requires
            self.wf(),
        ensures
            match r {
                Some(name) => self.players_view().contains_key(id@) && *name == self.players_view()[id@],
                None => !self.players_view().contains_key(id@),
            },
    {
        self.players.get(id)
    }

    /// The score of `id`; 0 for anyone without one.
    pub fn score(&self, id: &String) -> (r: u32)
        requires
            self.wf(),
        ensures
            r == score_of(self.scores_view(), id@),
    {
        match self.scores.get(id) {
            Some(s) => *s,
            None => 0,
        }
    }

    /// How many players are in the room.
    pub fn player_count(&self) -> (r: usize)
        requires
            self.wf(),
        ensures
            r == self.players_view().dom().len(),
    {
        proof {
            self.players.lemma_key_list();
            let l = self.players.key_list();
            lemma_distinct_len(l, self.players.view().dom());
        }
        self.players.len()
    }

    /// Adds `id` with display name `name`, or renames them.
    pub fn add_player(&mut self, id: String, name: String)
        requires
            old(self).wf(),
        ensures
            final(self).wf(),
            final(self).players_view() == old(self).players_view().insert(id@, name),
            final(self).scores_view() == old(self).scores_view(),
            final(self).bids_view() == old(self).bids_view(),
    {
        self.players.insert(id, name);
    }

    /// Adds or updates `id` with display name `name` and score `score`.
    pub fn upsert_player(&mut self, id: String, name: String, score: u32)
        requires
            old(self).wf(),
        ensures
            final(self).wf(),
            final(self).players_view() == old(self).players_view().insert(id@, name),
            final(self).scores_view() == old(self).scores_view().insert(id@, score),
            final(self).bids_view() == old(self).bids_view(),
    {
        let key = id.clone();
        self.players.insert(id, name);
        self.scores.insert(key, score);
    }

    /// Takes `id` and their score out of the room.
    pub fn remove_player(&mut self, id: &String)
        requires
            old(self).wf(),
        ensures
            final(self).wf(),
            final(self).players_view() == old(self).players_view().remove(id@),
            final(self).scores_view() == old(self).scores_view().remove(id@),
            final(self).bids_view() == old(self).bids_view(),
    {
        self.players.remove(id);
        self.scores.remove(id);
    }

    /// Empties the room.
    pub fn clear(&mut self)
        ensures
            final(self).wf(),
            final(self).is_empty(),
    {
        self.players.clear();
        self.scores.clear();
        self.bids.clear();
    }

    /// Stores every complete entry of `msg`, in order.
    pub fn apply_join(&mut self, msg: PlayerJoinMessage)
        requires
            old(self).wf(),
        ensures
            final(self).wf(),
            final(self).players_view() == join_players(old(self).players_view(), msg.ids@, msg.names@, join_len(msg)),
            final(self).scores_view() == join_scores(old(self).scores_view(), msg.ids@, msg.scores@, join_len(msg)),
            final(self).bids_view() == old(self).bids_view(),
    {
        let ghost m = msg;
        let PlayerJoinMessage { ids, names, scores } = msg;
        let n = if ids.len() <= names.len() && ids.len() <= scores.len() {
            ids.len()
        } else if names.len() <= scores.len() {
            names.len()
        } else {
            scores.len()
        };
        let ghost p0 = self.players_view();
        let ghost s0 = self.scores_view();
        let mut i: usize = 0;
        while i < n
            invariant
                n == join_len(m),
                n <= ids@.len() && n <= names@.len() && n <= scores@.len(),
                ids@ == m.ids@,
                names@ == m.names@,
                scores@ == m.scores@,
                i <= n,
                self.wf(),
                self.players_view() == join_players(p0, ids@, names@, i as nat),
                self.scores_view() == join_scores(s0, ids@, scores@, i as nat),
                self.bids_view() == old(self).bids_view(),
            decreases n - i,
        {
            self.upsert_player(ids[i].clone(), names[i].clone(), scores[i]);
            i += 1;
        }
    }

    /// Every player, once each, with their name and score.
    pub fn roster(&self) -> (r: PlayerJoinMessage)
        requires
            self.wf(),
        ensures
            is_roster(self.players_view(), self.scores_view(), r),
    {
        proof {
            self.players.lemma_key_list();
        }
        let mut ids: Vec<String> = Vec::new();
        let mut names: Vec<String> = Vec::new();
        let mut scores: Vec<u32> = Vec::new();
        let n = self.players.len();
        let mut i: usize = 0;
        while i < n
            invariant
                self.wf(),
                n == self.players.key_list().len(),
                i <= n,
                ids@.len() == i && names@.len() == i && scores@.len() == i,
                forall|j: int| 0 <= j < i ==> (#[trigger] ids@[j])@ == self.players.key_list()[j],
                forall|j: int| 0 <= j < i ==> {
                    let k = (#[trigger] ids@[j])@;
                    &&& self.players_view().contains_key(k)
                    &&& names@[j] == self.players_view()[k]
                    &&& scores@[j] == score_of(self.scores_view(), k)
                },
            decreases n - i,
        {
            let id = self.players.key_at(i);
            proof {
                self.players.lemma_key_list();
                assert(self.players.key_list()[i as int] == id@);
                assert(self.players.key_list().contains(id@));
                assert(self.players_view().contains_key(id@));
            }
            let name = match self.players.get(id) {
                Some(name) => name.clone(),
                None => String::new(),
            };
            let score = self.score(id);
            ids.push(id.clone());
            names.push(name);
            scores.push(score);
            proof {
                assert(ids@[i as int]@ == id@);
            }
            i += 1;
        }
        let r = PlayerJoinMessage { ids, names, scores };
        proof {
            self.players.lemma_key_list();
            let l = self.players.key_list();
            assert forall|k: Seq<char>| self.players_view().contains_key(k)
                implies exists|j: int| 0 <= j < n && (#[trigger] r.ids@[j])@ == k by {
                assert(self.players.view().contains_key(k));
                assert(l.contains(k));
                let j = choose|j: int| 0 <= j < l.len() && l[j] == k;
                assert(r.ids@[j]@ == k);
            }
            assert forall|a: int, b: int| 0 <= a < n && 0 <= b < n && a != b
                implies (#[trigger] r.ids@[a])@ != (#[trigger] r.ids@[b])@ by {
                assert(r.ids@[a]@ == l[a] && r.ids@[b]@ == l[b]);
            }
        }
        r
    }

    /// How many bids the round holds.
    pub fn bid_count(&self) -> (r: usize)
        ensures
            r == self.bids_view().len(),
    {
        self.bids.len()
    }

    /// Adds a bid to the round.
    pub fn push_bid(&mut self, bid: Bid)
        requires
            old(self).wf(),
        ensures
            final(self).wf(),
            final(self).players_view() == old(self).players_view(),
            final(self).scores_view() == old(self).scores_view(),
            final(self).bids_view() == old(self).bids_view().push(bid),
    {
        self.bids.push(bid);
    }

    /// Drops every bid, to open a new round.
    pub fn clear_bids(&mut self)
        requires
            old(self).wf(),
        ensures
            final(self).wf(),
            final(self).players_view() == old(self).players_view(),
            final(self).scores_view() == old(self).scores_view(),
            final(self).bids_view() == Seq::<Bid>::empty(),
    {
        self.bids.clear();
    }

    /// Takes out the bid that comes first.
    pub fn pop_bid(&mut self) -> (r: Option<Bid>)
        requires
            old(self).wf(),
        ensures
            final(self).wf(),
            final(self).players_view() == old(self).players_view(),
            final(self).scores_view() == old(self).scores_view(),
            r is None <==> old(self).bids_view().len() == 0,
            r is None ==> final(self).bids_view() == old(self).bids_view(),
            r matches Some(b) ==> exists|i: int| is_first(old(self).bids_view(), i)
                && old(self).bids_view()[i] == b && final(self).bids_view() == old(self).bids_view().remove(i),
    {
        self.bids.pop()
    }
}

impl Default for RoomState {
    fn default() -> (r: RoomState)
        ensures
            r.wf(),
            r.is_empty(),
    {
        RoomState::new()
    }
}

proof fn lemma_join_prefix(players: Map<Seq<char>, String>, scores: Map<Seq<char>, u32>, msg: PlayerJoinMessage, n: nat)
    requires
        is_roster(players, scores, msg),
        n <= msg.ids@.len(),
    ensures
        forall|k: Seq<char>| #[trigger] join_players(Map::empty(), msg.ids@, msg.names@, n).contains_key(k)
            <==> exists|j: int| 0 <= j < n && (#[trigger] msg.ids@[j])@ == k,
        forall|k: Seq<char>| #[trigger] join_scores(Map::empty(), msg.ids@, msg.scores@, n).contains_key(k)
            <==> exists|j: int| 0 <= j < n && (#[trigger] msg.ids@[j])@ == k,
        forall|k: Seq<char>| #[trigger] join_players(Map::empty(), msg.ids@, msg.names@, n).contains_key(k)
            ==> join_players(Map::empty(), msg.ids@, msg.names@, n)[k] == players[k],
        forall|k: Seq<char>| #[trigger] join_scores(Map::empty(), msg.ids@, msg.scores@, n).contains_key(k)
            ==> join_scores(Map::empty(), msg.ids@, msg.scores@, n)[k] == score_of(scores, k),
    decreases n,
{
    if n > 0 {
        let m = (n - 1) as nat;
        lemma_join_prefix(players, scores, msg, m);
        let last = msg.ids@[m as int];
        let p = join_players(Map::empty(), msg.ids@, msg.names@, n);
        let s = join_scores(Map::empty(), msg.ids@, msg.scores@, n);
        let pp = join_players(Map::empty(), msg.ids@, msg.names@, m);
        let ps = join_scores(Map::empty(), msg.ids@, msg.scores@, m);
        assert(p == pp.insert(last@, msg.names@[m as int]));
        assert(s == ps.insert(last@, msg.scores@[m as int]));
        assert(players.contains_key(last@) && msg.names@[m as int] == players[last@]
            && msg.scores@[m as int] == score_of(scores, last@));
        assert forall|k: Seq<char>| #[trigger] p.contains_key(k)
            <==> exists|j: int| 0 <= j < n && (#[trigger] msg.ids@[j])@ == k by {
            if k == last@ {
                assert(msg.ids@[m as int]@ == k);
            } else {
                if p.contains_key(k) {
                    assert(pp.contains_key(k));
                    let j = choose|j: int| 0 <= j < m && (#[trigger] msg.ids@[j])@ == k;
                    assert(0 <= j < n);
                }
                if exists|j: int| 0 <= j < n && (#[trigger] msg.ids@[j])@ == k {
                    let j = choose|j: int| 0 <= j < n && (#[trigger] msg.ids@[j])@ == k;
                    assert(j < m);
                    assert(pp.contains_key(k));
                }
            }
        }
        assert forall|k: Seq<char>| #[trigger] s.contains_key(k)
            <==> exists|j: int| 0 <= j < n && (#[trigger] msg.ids@[j])@ == k by {
            if k == last@ {
                assert(msg.ids@[m as int]@ == k);
            } else {
                if s.contains_key(k) {
                    assert(ps.contains_key(k));
                    let j = choose|j: int| 0 <= j < m && (#[trigger] msg.ids@[j])@ == k;
                    assert(0 <= j < n);
                }
                if exists|j: int| 0 <= j < n && (#[trigger] msg.ids@[j])@ == k {
                    let j = choose|j: int| 0 <= j < n && (#[trigger] msg.ids@[j])@ == k;
                    assert(j < m);
                    assert(ps.contains_key(k));
                }
            }
        }
        assert forall|k: Seq<char>| #[trigger] p.contains_key(k) implies p[k] == players[k] by {
            if k != last@ {
                assert(pp.contains_key(k));
            }
        }
        assert forall|k: Seq<char>| #[trigger] s.contains_key(k) implies s[k] == score_of(scores, k) by {
            if k != last@ {
                assert(ps.contains_key(k));
            }
        }
    }
}

/// A newcomer that starts with an empty room and stores a roster of the
/// host's room ends with the host's players, and every identity has the
/// score there that it has at the host.
pub proof fn lemma_roster_rebuilds(players: Map<Seq<char>, String>, scores: Map<Seq<char>, u32>, msg: PlayerJoinMessage)
    requires
        is_roster(players, scores, msg),
        scores.dom().subset_of(players.dom()),
    ensures
        join_players(Map::empty(), msg.ids@, msg.names@, join_len(msg)) == players,
        forall|k: Seq<char>| score_of(join_scores(Map::empty(), msg.ids@, msg.scores@, join_len(msg)), k)
            == #[trigger] score_of(scores, k),
{
    let n = join_len(msg);
    lemma_join_prefix(players, scores, msg, n);
    let p = join_players(Map::empty(), msg.ids@, msg.names@, n);
    let s = join_scores(Map::empty(), msg.ids@, msg.scores@, n);
    assert forall|k: Seq<char>| p.contains_key(k) <==> players.contains_key(k) by {
        if p.contains_key(k) {
            let j = choose|j: int| 0 <= j < n && (#[trigger] msg.ids@[j])@ == k;
        }
    }
    assert(p =~= players);
    assert forall|k: Seq<char>| score_of(s, k) == #[trigger] score_of(scores, k) by {
        if !s.contains_key(k) {
            if players.contains_key(k) {
                let j = choose|j: int| 0 <= j < n && (#[trigger] msg.ids@[j])@ == k;
            }
        }
    }
}

/// A player who joins and then leaves is no longer listed and has no
/// score, whatever the room held before.
pub proof fn lemma_join_then_leave(players: Map<Seq<char>, String>, scores: Map<Seq<char>, u32>, id: String, name: String, score: u32)
    ensures
        !join_players(players, seq![id], seq![name], 1).remove(id@).contains_key(id@),
        !join_scores(scores, seq![id], seq![score], 1).remove(id@).contains_key(id@),
        !players.insert(id@, name).remove(id@).contains_key(id@),
        !scores.remove(id@).contains_key(id@),
{
}

proof fn lemma_distinct_len(l: Seq<Seq<char>>, dom: Set<Seq<char>>)
    requires
        forall|i: int, j: int| 0 <= i < l.len() && 0 <= j < l.len() && i != j ==> l[i] != l[j],
        forall|k: Seq<char>| dom.contains(k) <==> l.contains(k),
    ensures
        dom.finite(),
        dom.len() == l.len(),
{
    assert(l.no_duplicates());
    l.unique_seq_to_set();
    assert(dom =~= l.to_set());
}

} // verus!
