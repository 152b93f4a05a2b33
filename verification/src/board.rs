use vstd::prelude::*;
use std::sync::Arc;
use crate::text::{
    chars_of, fields_of, lines_of, next_line, parse_unsigned, same_chars, three_fields,
    unsigned_value,
};

verus! {

/// A station number on the board; stations are numbered from 1.
#[derive(Copy, Clone, PartialEq, Eq, Debug, Hash, Structural)]
pub struct StationId {
    pub id: u8,
}

/// The transport a ticket pays for. `Black` also pays for ferry edges.
#[derive(Copy, Clone, PartialEq, Eq, Debug, Hash, Structural)]
pub enum TicketType {
    Taxi,
    Bus,
    Underground,
    Black,
}

/// The board: `adjacency_map[k]` lists the edges leaving station `k + 1`,
/// each as the destination and the transport the edge is travelled by.
pub struct Board {
    pub adjacency_map: Vec<Vec<(StationId, TicketType)>>,
}

impl View for Board {
    type V = Seq<Seq<(StationId, TicketType)>>;

    open spec fn view(&self) -> Seq<Seq<(StationId, TicketType)>> {
        self.adjacency_map@.map_values(|v: Vec<(StationId, TicketType)>| v@)
    }
}

/// `sid` names a station of a board with `n` stations.
pub open spec fn station_in_range(n: nat, sid: StationId) -> bool {
    1 <= sid.id && sid.id <= n
}

/// Every edge of the board leads to a station of the board.
pub open spec fn board_closed(board: Seq<Seq<(StationId, TicketType)>>) -> bool {
    forall|i: int, k: int|
        0 <= i < board.len() && 0 <= k < board[i].len() ==> station_in_range(
            board.len(),
            #[trigger] board[i][k].0,
        )
}

impl Board {
    /// Whether every edge leads to a station of the board.
    pub fn is_closed(&self) -> (r: bool)
        ensures
            r == board_closed(self@),
    {
        let n: usize = self.adjacency_map.len();
        let mut i: usize = 0;
        while i < n
            invariant
                i <= n == self@.len(),
                forall|a: int, k: int|
                    0 <= a < i && 0 <= k < self@[a].len() ==> station_in_range(
                        n as nat,
                        #[trigger] self@[a][k].0,
                    ),
            decreases n - i,
        {
            let edges = &self.adjacency_map[i];
            assert(edges@ == self@[i as int]);
            let mut k: usize = 0;
            while k < edges.len()
                invariant
                    i < n == self@.len(),
                    k <= edges@.len(),
                    edges@ == self@[i as int],
                    forall|a: int, j: int|
                        0 <= a < i && 0 <= j < self@[a].len() ==> station_in_range(
                            n as nat,
                            #[trigger] self@[a][j].0,
                        ),
                    forall|j: int| 0 <= j < k ==> station_in_range(n as nat, #[trigger] edges@[j].0),
                decreases edges.len() - k,
            {
                let to = edges[k].0;
                if to.id < 1 || to.id as usize > n {
                    assert(!station_in_range(n as nat, self@[i as int][k as int].0));
                    return false;
                }
                k = k + 1;
            }
            assert forall|a: int, j: int|
                0 <= a < i + 1 && 0 <= j < self@[a].len() implies station_in_range(
                n as nat,
                #[trigger] self@[a][j].0,
            ) by {
                if a == i {
                    assert(self@[a][j] == edges@[j]);
                }
            }
            i = i + 1;
        }
        true
    }

    /// The edges leaving station `sid` (stations are numbered from 1).
    pub fn neighbors(&self, sid: StationId) -> (r: &Vec<(StationId, TicketType)>)
        requires
            station_in_range(self@.len(), sid),
        ensures
            r@ == self@[sid.id - 1],
    {
        &self.adjacency_map[sid.id as usize - 1]
    }
}

/// Trusted: `Arc::clone` (std) returns a second pointer to the same
/// allocation, so the board it reaches is the same value.
#[verifier::external_body]
pub(crate) fn share_board(b: &Arc<Board>) -> (r: Arc<Board>)
    ensures
        r == *b,
{
    Arc::clone(b)
}

/// The number of stations on the board.
pub const STATION_COUNT: usize = 199;

/// The ticket named `s` in a connections file; `water` is the ferry, paid
/// for with a black ticket.
pub open spec fn ticket_named(s: Seq<char>) -> Option<TicketType> {
    if s == seq!['t', 'a', 'x', 'i'] {
        Some(TicketType::Taxi)
    } else if s == seq!['b', 'u', 's'] {
        Some(TicketType::Bus)
    } else if s == seq!['u', 'n', 'd', 'e', 'r', 'g', 'r', 'o', 'u', 'n', 'd'] {
        Some(TicketType::Underground)
    } else if s == seq!['w', 'a', 't', 'e', 'r'] {
        Some(TicketType::Black)
    } else {
        None
    }
}

/// The ticket named by `cs[from..to]`.
pub fn ticket_from_chars(cs: &Vec<char>, from: usize, to: usize) -> (r: Option<TicketType>)
    requires
        from <= to <= cs.len(),
    ensures
        r == ticket_named(cs@.subrange(from as int, to as int)),
{
    let taxi = ['t', 'a', 'x', 'i'];
    let bus = ['b', 'u', 's'];
    let underground = ['u', 'n', 'd', 'e', 'r', 'g', 'r', 'o', 'u', 'n', 'd'];
    let water = ['w', 'a', 't', 'e', 'r'];
    assert(taxi@ =~= seq!['t', 'a', 'x', 'i']);
    assert(bus@ =~= seq!['b', 'u', 's']);
    assert(underground@ =~= seq!['u', 'n', 'd', 'e', 'r', 'g', 'r', 'o', 'u', 'n', 'd']);
    assert(water@ =~= seq!['w', 'a', 't', 'e', 'r']);
    if same_chars(cs, from, to, &taxi) {
        Some(TicketType::Taxi)
    } else if same_chars(cs, from, to, &bus) {
        Some(TicketType::Bus)
    } else if same_chars(cs, from, to, &underground) {
        Some(TicketType::Underground)
    } else if same_chars(cs, from, to, &water) {
        Some(TicketType::Black)
    } else {
        None
    }
}

/// The ticket called `name`; an unknown name is refused with a message that
/// quotes it.
pub fn parse_ticket(name: &str) -> (r: Result<TicketType, String>)
    ensures
        match r {
            Ok(t) => ticket_named(name@) == Some(t),
            Err(e) => ticket_named(name@) is None && e@ == unknown_ticket_message(name@),
        },
{
    let cs = chars_of(name);
    assert(cs@.subrange(0, cs@.len() as int) =~= name@);
    match ticket_from_chars(&cs, 0, cs.len()) {
        Some(t) => Ok(t),
        None => {
            let mut msg = "Unknown ticket type: ".to_owned();
            msg.append(name);
            proof {
                reveal_strlit("Unknown ticket type: ");
            }
            Err(msg)
        },
    }
}

/// The message refusing the ticket name `name`.
pub open spec fn unknown_ticket_message(name: Seq<char>) -> Seq<char> {
    seq!['U', 'n', 'k', 'n', 'o', 'w', 'n', ' ', 't', 'i', 'c', 'k', 'e', 't', ' ', 't', 'y', 'p', 'e', ':', ' ']
        + name
}

impl std::str::FromStr for TicketType {
    type Err = String;

    /// Reads a ticket name as connections files write it; see `parse_ticket`.
    fn from_str(s: &str) -> (r: Result<Self, Self::Err>)
        ensures
            match r {
                Ok(t) => ticket_named(s@) == Some(t),
                Err(e) => ticket_named(s@) is None && e@ == unknown_ticket_message(s@),
            },
    {
        parse_ticket(s)
    }
}

/// The connection a line of a connections file declares: `from to ticket`,
/// separated by single spaces (anything after the third field is ignored),
/// both stations on the board. `None` for a line the file may not hold.
pub open spec fn connection_of(line: Seq<char>) -> Option<(nat, nat, TicketType)> {
    let f = fields_of(line);
    if f.len() >= 3 {
        match (unsigned_value(f[0]), unsigned_value(f[1]), ticket_named(f[2])) {
            (Some(a), Some(b), Some(t)) => if 1 <= a <= STATION_COUNT && 1 <= b
                <= STATION_COUNT {
                Some((a, b, t))
            } else {
                None
            },
            _ => None,
        }
    } else {
        None
    }
}

/// `b` with the connection between stations `a` and `d` by `t` added in
/// both directions: `d` at the end of `a`'s list, then `a` at the end of
/// `d`'s.
pub open spec fn with_connection(
    b: Seq<Seq<(StationId, TicketType)>>,
    a: nat,
    d: nat,
    t: TicketType,
) -> Seq<Seq<(StationId, TicketType)>> {
    let b1 = b.update(a - 1, b[a - 1].push((StationId { id: d as u8 }, t)));
    b1.update(d - 1, b1[d - 1].push((StationId { id: a as u8 }, t)))
}

/// The board the lines of a connections file describe: every station
/// starts with no edges, and each line adds its connection both ways.
pub open spec fn connections_board(lines: Seq<Seq<char>>) -> Seq<Seq<(StationId, TicketType)>>
    decreases lines.len(),
{
    if lines.len() == 0 {
        Seq::new(STATION_COUNT as nat, |i: int| Seq::<(StationId, TicketType)>::empty())
    } else {
        let b = connections_board(lines.drop_last());
        match connection_of(lines.last()) {
            Some((a, d, t)) => with_connection(b, a, d, t),
            None => b,
        }
    }
}

/// Every line of a connections file declares a connection.
pub open spec fn connections_ok(lines: Seq<Seq<char>>) -> bool {
    forall|k: int| 0 <= k < lines.len() ==> #[trigger] connection_of(lines[k]) is Some
}

/// Station `to` can be reached from the station at index `i` by `t`.
pub open spec fn has_edge(
    b: Seq<Seq<(StationId, TicketType)>>,
    i: int,
    to: StationId,
    t: TicketType,
) -> bool {
    exists|k: int| 0 <= k < b[i].len() && #[trigger] b[i][k] == (to, t)
}

/// Every edge can be travelled back by the same transport.
pub open spec fn board_symmetric(b: Seq<Seq<(StationId, TicketType)>>) -> bool {
    forall|i: int, k: int|
        #![trigger b[i][k]]
        0 <= i < b.len() && 0 <= k < b[i].len() ==> has_edge(
            b,
            b[i][k].0.id - 1,
            StationId { id: (i + 1) as u8 },
            b[i][k].1,
        )
}

/// A board read from a connections file has all its stations, its edges
/// lead to stations, and each edge can be travelled back by the same
/// transport.
pub proof fn lemma_connections_board(lines: Seq<Seq<char>>)
    ensures
        connections_board(lines).len() == STATION_COUNT,
        board_closed(connections_board(lines)),
        board_symmetric(connections_board(lines)),
    decreases lines.len(),
{
    if lines.len() > 0 {
        lemma_connections_board(lines.drop_last());
        let b = connections_board(lines.drop_last());
        if let Some((a, d, t)) = connection_of(lines.last()) {
            lemma_with_connection(b, a, d, t);
        }
    }
}

proof fn lemma_with_connection(b: Seq<Seq<(StationId, TicketType)>>, a: nat, d: nat, t: TicketType)
    requires
        b.len() == STATION_COUNT,
        board_closed(b),
        board_symmetric(b),
        1 <= a <= STATION_COUNT,
        1 <= d <= STATION_COUNT,
    ensures
        with_connection(b, a, d, t).len() == STATION_COUNT,
        board_closed(with_connection(b, a, d, t)),
        board_symmetric(with_connection(b, a, d, t)),
{
    let b1 = b.update(a - 1, b[a - 1].push((StationId { id: d as u8 }, t)));
    let b2 = with_connection(b, a, d, t);
    // every list only grows
    assert forall|x: int, k: int| 0 <= x < b.len() && 0 <= k < b[x].len() implies #[trigger] b2[x][k]
        == b[x][k] by {
        assert(b1[x][k] == b[x][k]);
    }
    assert forall|x: int| 0 <= x < b.len() implies #[trigger] b2[x].len() >= b[x].len() by {}
    let ka = b2[a - 1].len() - if a == d {
        2int
    } else {
        1int
    };
    let kd = b2[d - 1].len() - 1;
    assert(b2[a - 1][ka] == (StationId { id: d as u8 }, t));
    assert(b2[d - 1][kd] == (StationId { id: a as u8 }, t));
    assert forall|i: int, k: int| 0 <= i < b2.len() && 0 <= k < b2[i].len() implies station_in_range(
        b2.len(),
        #[trigger] b2[i][k].0,
    ) by {
        if k < b[i].len() {
            assert(station_in_range(b.len(), b[i][k].0));
        }
    }
    assert forall|i: int, k: int| #![trigger b2[i][k]] 0 <= i < b2.len() && 0 <= k < b2[i].len() implies has_edge(
        b2,
        b2[i][k].0.id - 1,
        StationId { id: (i + 1) as u8 },
        b2[i][k].1,
    ) by {
        if k < b[i].len() {
            assert(b2[i][k] == b[i][k]);
            assert(has_edge(b, b[i][k].0.id - 1, StationId { id: (i + 1) as u8 }, b[i][k].1));
            let x = b[i][k].0.id - 1;
            let j = choose|j: int| 0 <= j < b[x].len() && #[trigger] b[x][j] == (StationId { id: (i + 1) as u8 }, b[i][k].1);
            assert(b2[x][j] == b[x][j]);
        } else if i == a - 1 && k == ka {
            assert(b2[d - 1][kd] == (StationId { id: a as u8 }, t));
        } else {
            assert(i == d - 1 && k == kd);
            assert(b2[a - 1][ka] == (StationId { id: d as u8 }, t));
        }
    }
}

impl Board {
    /// Builds the board from the text of a connections file: one connection
    /// per line, `from to ticket` separated by single spaces, with tickets
    /// `taxi`, `bus`, `underground` or `water` (the ferry, travelled on a
    /// black ticket). Each connection is added in both directions, in file
    /// order. `None` when a line does not declare a connection between two
    /// of the stations 1 to 199.
    pub fn from_connections_file(contents: &str) -> (r: Option<Board>)
        ensures
            r is Some <==> connections_ok(lines_of(contents@)),
            r matches Some(b) ==> b@ == connections_board(lines_of(contents@)),
            r matches Some(b) ==> b@.len() == STATION_COUNT && board_closed(b@) && board_symmetric(b@),
    {
        let cs = chars_of(contents);
        let n: usize = cs.len();
        let mut adj: Vec<Vec<(StationId, TicketType)>> = Vec::new();
        let mut s: usize = 0;
        while s < STATION_COUNT
            invariant
                s <= STATION_COUNT,
                adj.len() == s,
                forall|x: int| 0 <= x < s ==> (#[trigger] adj@[x])@.len() == 0,
            decreases STATION_COUNT - s,
        {
            adj.push(Vec::new());
            s = s + 1;
        }
        let ghost lines = lines_of(cs@);
        let ghost mut done: Seq<Seq<char>> = Seq::empty();
        proof {
            let b0 = connections_board(done);
            assert(Board { adjacency_map: adj }@ =~= b0) by {
                assert forall|x: int| 0 <= x < STATION_COUNT implies (Board { adjacency_map: adj }@)[x]
                    =~= b0[x] by {}
            }
            assert(cs@.skip(0) =~= cs@);
            assert(lines =~= done + lines_of(cs@.skip(0)));
        }
        let mut i: usize = 0;
        while i < n
            invariant
                i <= n == cs.len(),
                cs@ == contents@,
                lines == lines_of(cs@),
                lines == done + lines_of(cs@.skip(i as int)),
                connections_ok(done),
                adj.len() == STATION_COUNT,
                (Board { adjacency_map: adj })@ == connections_board(done),
            decreases n - i,
        {
            let (end, next) = next_line(&cs, i);
            let ghost line = cs@.subrange(i as int, end as int);
            assert(lines == (done.push(line)) + lines_of(cs@.skip(next as int)));
            assert(lines[done.len() as int] == line);
            let fields = three_fields(&cs, i, end);
            let (e0, e1, e2) = match fields {
                Some(f) => f,
                None => {
                    assert(connection_of(lines[done.len() as int]) is None);
                    return None;
                },
            };
            let a = parse_unsigned(&cs, i, e0);
            let d = parse_unsigned(&cs, e0 + 1, e1);
            let t = ticket_from_chars(&cs, e1 + 1, e2);
            let (a, d, t) = match (a, d, t) {
                (Some(a), Some(d), Some(t)) => {
                    if 1 <= a && a <= 199 && 1 <= d && d <= 199 {
                        (a as usize, d as usize, t)
                    } else {
                        assert(connection_of(lines[done.len() as int]) is None);
                        return None;
                    }
                },
                _ => {
                    assert(connection_of(lines[done.len() as int]) is None);
                    return None;
                },
            };
            assert(connection_of(line) == Some((a as nat, d as nat, t)));
            let ghost before = (Board { adjacency_map: adj })@;
            let mut la: Vec<(StationId, TicketType)> = Vec::new();
            std::mem::swap(&mut la, &mut adj[a - 1]);
            la.push((StationId { id: d as u8 }, t));
            adj.set(a - 1, la);
            let mut ld: Vec<(StationId, TicketType)> = Vec::new();
            std::mem::swap(&mut ld, &mut adj[d - 1]);
            ld.push((StationId { id: a as u8 }, t));
            adj.set(d - 1, ld);
            proof {
                let after = with_connection(before, a as nat, d as nat, t);
                assert((Board { adjacency_map: adj })@ =~= after);
                let nd = done.push(line);
                assert(nd.drop_last() =~= done);
                assert(connections_board(nd) == after);
                assert forall|k: int| 0 <= k < nd.len() implies #[trigger] connection_of(nd[k]) is Some by {
                    if k < done.len() {
                        assert(nd[k] == done[k]);
                    }
                }
                done = nd;
            }
            i = next;
        }
        proof {
            assert(cs@.skip(n as int) =~= Seq::<char>::empty());
            assert(lines_of(cs@.skip(n as int)) =~= Seq::<Seq<char>>::empty());
            assert(lines =~= done);
            lemma_connections_board(done);
        }
        Some(Board { adjacency_map: adj })
    }
}

} // verus!
