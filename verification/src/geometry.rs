use vstd::prelude::*;
use crate::board::{ticket_from_chars, ticket_named};
use crate::dto::{ticket_dto_of, TicketDto};
use crate::text::{
    blank_between, chars_of, is_blank, lines_of, next_line, parse_unsigned, parses_within,
    three_words, trim, trim_bounds, unsigned_value, words,
};

verus! {

/// The map image: its size in pixels and where it is served.
pub struct ImageMeta {
    pub w: u32,
    pub h: u32,
    pub url: String,
}

/// A station's pixel position within the map image.
#[derive(Clone, Copy, PartialEq, Eq, Debug, Structural)]
pub struct StationGeom {
    pub id: u16,
    pub x: u16,
    pub y: u16,
}

/// One connection between two stations, by transport. Parallel edges (taxi
/// and bus between the same pair) stay distinct so each can be drawn.
#[derive(Clone, Copy, PartialEq, Eq, Debug, Structural)]
pub struct EdgeDto {
    pub from: u16,
    pub to: u16,
    pub ticket: TicketDto,
}

/// What the frontend needs to draw the board.
pub struct BoardDto {
    pub image: ImageMeta,
    pub stations: Vec<StationGeom>,
    pub edges: Vec<EdgeDto>,
}

/// The value of `s` as a `u16`.
pub open spec fn u16_value(s: Seq<char>) -> u16 {
    unsigned_value(s).unwrap() as u16
}

/// The edge a non-blank line of a connections file declares, read as the
/// frontend reads it: whitespace-separated `from to ticket`, anything after
/// the third word ignored. `None` for a line the file may not hold.
pub open spec fn edge_of(line: Seq<char>) -> Option<EdgeDto> {
    let w = words(line);
    if w.len() >= 3 && parses_within(w[0], u16::MAX as nat) && parses_within(w[1], u16::MAX as nat)
        && ticket_named(w[2]) is Some {
        Some(
            EdgeDto {
                from: u16_value(w[0]),
                to: u16_value(w[1]),
                ticket: ticket_dto_of(ticket_named(w[2]).unwrap()),
            },
        )
    } else {
        None
    }
}

/// The edges of the non-blank lines, in order.
pub open spec fn edges_from(lines: Seq<Seq<char>>) -> Seq<EdgeDto>
    decreases lines.len(),
{
    if lines.len() == 0 {
        Seq::empty()
    } else if is_blank(lines.last()) {
        edges_from(lines.drop_last())
    } else {
        edges_from(lines.drop_last()).push(edge_of(lines.last()).unwrap())
    }
}

/// Every non-blank line declares an edge.
pub open spec fn edges_ok(lines: Seq<Seq<char>>) -> bool {
    forall|k: int| 0 <= k < lines.len() ==> is_blank(#[trigger] lines[k]) || edge_of(lines[k]) is Some
}

/// The station a non-blank line of a positions file places: whitespace-
/// separated `id x y`, anything after the third word ignored.
pub open spec fn station_of(line: Seq<char>) -> Option<StationGeom> {
    let w = words(line);
    if w.len() >= 3 && parses_within(w[0], u16::MAX as nat) && parses_within(w[1], u16::MAX as nat)
        && parses_within(w[2], u16::MAX as nat) {
        Some(StationGeom { id: u16_value(w[0]), x: u16_value(w[1]), y: u16_value(w[2]) })
    } else {
        None
    }
}

/// The stations of the non-blank lines, in order.
pub open spec fn stations_from(lines: Seq<Seq<char>>) -> Seq<StationGeom>
    decreases lines.len(),
{
    if lines.len() == 0 {
        Seq::empty()
    } else if is_blank(lines.last()) {
        stations_from(lines.drop_last())
    } else {
        stations_from(lines.drop_last()).push(station_of(lines.last()).unwrap())
    }
}

/// Every non-blank line places a station.
pub open spec fn stations_ok(lines: Seq<Seq<char>>) -> bool {
    forall|k: int|
        0 <= k < lines.len() ==> is_blank(#[trigger] lines[k]) || station_of(lines[k]) is Some
}

/// A positions file: a first line holding the station count (surrounding
/// whitespace allowed), then one station per non-blank line, exactly as
/// many as the count says.
pub open spec fn positions_ok(text: Seq<char>) -> bool {
    let lines = lines_of(text);
    &&& lines.len() >= 1
    &&& parses_within(trim(lines[0]), usize::MAX as nat)
    &&& stations_ok(lines.skip(1))
    &&& stations_from(lines.skip(1)).len() == unsigned_value(trim(lines[0])).unwrap()
}

/// A PNG header long enough to hold the image size, with the signature's
/// `PNG` at bytes 1 to 3.
pub open spec fn png_ok(header: Seq<u8>) -> bool {
    &&& header.len() >= 24
    &&& header[1] == 80
    &&& header[2] == 78
    &&& header[3] == 71
}

/// The big-endian 32-bit number at bytes `at..at + 4` of `b`.
pub open spec fn be_u32(b: Seq<u8>, at: int) -> nat {
    (b[at] * 0x100_0000 + b[at + 1] * 0x1_0000 + b[at + 2] * 0x100 + b[at + 3]) as nat
}

/// Reads the edges of a connections file for the frontend: one edge per
/// non-blank line, `from to ticket` separated by whitespace. `None` when a
/// non-blank line holds fewer than three words, a station number that is
/// not a `u16`, or an unknown ticket.
pub fn parse_edges(text: &str) -> (r: Option<Vec<EdgeDto>>)
    ensures
        r is Some <==> edges_ok(lines_of(text@)),
        r matches Some(v) ==> v@ == edges_from(lines_of(text@)),
{
    let cs = chars_of(text);
    let n: usize = cs.len();
    let mut out: Vec<EdgeDto> = Vec::new();
    let ghost lines = lines_of(cs@);
    let ghost mut done: Seq<Seq<char>> = Seq::empty();
    assert(cs@.skip(0) =~= cs@);
    assert(lines =~= done + lines_of(cs@.skip(0)));
    let mut i: usize = 0;
    while i < n
        invariant
            i <= n == cs.len(),
            cs@ == text@,
            lines == lines_of(cs@),
            lines == done + lines_of(cs@.skip(i as int)),
            edges_ok(done),
            out@ == edges_from(done),
        decreases n - i,
    {
        let (end, next) = next_line(&cs, i);
        let ghost line = cs@.subrange(i as int, end as int);
        let ghost nd = done.push(line);
        assert(lines == nd + lines_of(cs@.skip(next as int)));
        assert(lines[done.len() as int] == line);
        assert(nd.drop_last() =~= done);
        if !blank_between(&cs, i, end) {
            let edge = match read_edge(&cs, i, end) {
                Some(e) => e,
                None => {
                    assert(!edges_ok(lines)) by {
                        assert(!is_blank(lines[done.len() as int]));
                    }
                    return None;
                },
            };
            out.push(edge);
        }
        proof {
            assert forall|k: int| 0 <= k < nd.len() implies is_blank(#[trigger] nd[k]) || edge_of(
                nd[k],
            ) is Some by {
                if k < done.len() {
                    assert(nd[k] == done[k]);
                }
            }
            done = nd;
        }
        i = next;
    }
    proof {
        assert(cs@.skip(n as int) =~= Seq::<char>::empty());
        assert(lines_of(cs@.skip(n as int)) =~= Seq::<Seq<char>>::empty());
        assert(lines =~= done);
    }
    Some(out)
}

/// The `u16` that `cs[from..to]` denotes, if it denotes one.
fn read_u16(cs: &Vec<char>, from: usize, to: usize) -> (r: Option<u16>)
    requires
        from <= to <= cs.len(),
    ensures
        match r {
            Some(v) => parses_within(cs@.subrange(from as int, to as int), u16::MAX as nat) && v
                == u16_value(cs@.subrange(from as int, to as int)),
            None => !parses_within(cs@.subrange(from as int, to as int), u16::MAX as nat),
        },
{
    match parse_unsigned(cs, from, to) {
        Some(v) => {
            if v <= 65535 {
                Some(v as u16)
            } else {
                None
            }
        },
        None => None,
    }
}

/// The edge that the line `cs[from..to]` declares.
fn read_edge(cs: &Vec<char>, from: usize, to: usize) -> (r: Option<EdgeDto>)
    requires
        from <= to <= cs.len(),
    ensures
        r == edge_of(cs@.subrange(from as int, to as int)),
{
    let (p0, p1, p2) = match three_words(cs, from, to) {
        Some(p) => p,
        None => return None,
    };
    let a = read_u16(cs, p0.0, p0.1);
    let b = read_u16(cs, p1.0, p1.1);
    let t = ticket_from_chars(cs, p2.0, p2.1);
    match (a, b, t) {
        (Some(a), Some(b), Some(t)) => Some(EdgeDto { from: a, to: b, ticket: TicketDto::from(t) }),
        _ => None,
    }
}

/// The station that the line `cs[from..to]` places.
fn read_station(cs: &Vec<char>, from: usize, to: usize) -> (r: Option<StationGeom>)
    requires
        from <= to <= cs.len(),
    ensures
        r == station_of(cs@.subrange(from as int, to as int)),
{
    let (p0, p1, p2) = match three_words(cs, from, to) {
        Some(p) => p,
        None => return None,
    };
    let id = read_u16(cs, p0.0, p0.1);
    let x = read_u16(cs, p1.0, p1.1);
    let y = read_u16(cs, p2.0, p2.1);
    match (id, x, y) {
        (Some(id), Some(x), Some(y)) => Some(StationGeom { id, x, y }),
        _ => None,
    }
}

/// Reads a positions file: the station count on the first line, then one
/// station per non-blank line as whitespace-separated `id x y`. `None` when
/// the file is empty, the count is not a number, a station line is
/// malformed, or the number of stations differs from the count.
pub fn parse_positions(text: &str) -> (r: Option<Vec<StationGeom>>)
    ensures
        r is Some <==> positions_ok(text@),
        r matches Some(v) ==> v@ == stations_from(lines_of(text@).skip(1)),
{
    let cs = chars_of(text);
    let n: usize = cs.len();
    let ghost all = lines_of(cs@);
    if n == 0 {
        assert(all =~= Seq::<Seq<char>>::empty());
        return None;
    }
    let (end0, next0) = next_line(&cs, 0);
    assert(cs@.skip(0) =~= cs@);
    let (ta, tb) = trim_bounds(&cs, 0, end0);
    let count = match parse_unsigned(&cs, ta, tb) {
        Some(v) => {
            if v <= usize::MAX as u128 {
                v as usize
            } else {
                return None;
            }
        },
        None => return None,
    };
    let ghost lines = all.skip(1);
    assert(lines =~= lines_of(cs@.skip(next0 as int)));
    let mut out: Vec<StationGeom> = Vec::new();
    let ghost mut done: Seq<Seq<char>> = Seq::empty();
    assert(lines =~= done + lines_of(cs@.skip(next0 as int)));
    let mut i: usize = next0;
    while i < n
        invariant
            i <= n == cs.len(),
            cs@ == text@,
            lines == lines_of(cs@).skip(1),
            lines == done + lines_of(cs@.skip(i as int)),
            stations_ok(done),
            out@ == stations_from(done),
        decreases n - i,
    {
        let (end, next) = next_line(&cs, i);
        let ghost line = cs@.subrange(i as int, end as int);
        let ghost nd = done.push(line);
        assert(lines == nd + lines_of(cs@.skip(next as int)));
        assert(lines[done.len() as int] == line);
        assert(nd.drop_last() =~= done);
        if !blank_between(&cs, i, end) {
            let st = match read_station(&cs, i, end) {
                Some(st) => st,
                None => {
                    assert(!stations_ok(lines)) by {
                        assert(!is_blank(lines[done.len() as int]));
                    }
                    return None;
                },
            };
            out.push(st);
        }
        proof {
            assert forall|k: int| 0 <= k < nd.len() implies is_blank(#[trigger] nd[k])
                || station_of(nd[k]) is Some by {
                if k < done.len() {
                    assert(nd[k] == done[k]);
                }
            }
            done = nd;
        }
        i = next;
    }
    proof {
        assert(cs@.skip(n as int) =~= Seq::<char>::empty());
        assert(lines_of(cs@.skip(n as int)) =~= Seq::<Seq<char>>::empty());
        assert(lines =~= done);
    }
    if out.len() != count {
        return None;
    }
    Some(out)
}

/// The width and height a PNG header records: the big-endian numbers at
/// bytes 16 and 20. `None` when the header is shorter than 24 bytes or its
/// bytes 1 to 3 are not `PNG`.
pub fn png_dimensions(header: &[u8]) -> (r: Option<(u32, u32)>)
    ensures
        r is Some <==> png_ok(header@),
        r matches Some((w, h)) ==> w == be_u32(header@, 16) && h == be_u32(header@, 20),
{
    if header.len() < 24 || header[1] != 80 || header[2] != 78 || header[3] != 71 {
        return None;
    }
    Some((read_be_u32(header, 16), read_be_u32(header, 20)))
}

/// The big-endian number at bytes `at..at + 4` of `b`.
fn read_be_u32(b: &[u8], at: usize) -> (r: u32)
    requires
        at + 4 <= b@.len(),
    ensures
        r == be_u32(b@, at as int),
{
    (b[at] as u32) * 0x100_0000 + (b[at + 1] as u32) * 0x1_0000 + (b[at + 2] as u32) * 0x100 + (b[at
        + 3] as u32)
}

impl BoardDto {
    /// Builds what the frontend draws from the three asset files: the
    /// connections file, the positions file and the map image's header.
    /// `None` when any of them is malformed (see `parse_edges`,
    /// `parse_positions`, `png_dimensions`).
    pub fn load(connections: &str, positions: &str, map_png: &[u8]) -> (r: Option<Self>)
        ensures
            r is Some <==> positions_ok(positions@) && edges_ok(lines_of(connections@)) && png_ok(
                map_png@,
            ),
            r matches Some(d) ==> {
                &&& d.stations@ == stations_from(lines_of(positions@).skip(1))
                &&& d.edges@ == edges_from(lines_of(connections@))
                &&& d.image.w == be_u32(map_png@, 16)
                &&& d.image.h == be_u32(map_png@, 20)
                &&& d.image.url@ == map_url()
            },
    {
        let stations = match parse_positions(positions) {
            Some(s) => s,
            None => return None,
        };
        let edges = match parse_edges(connections) {
            Some(e) => e,
            None => return None,
        };
        let (w, h) = match png_dimensions(map_png) {
            Some(d) => d,
            None => return None,
        };
        let url = "/assets/map.png".to_owned();
        proof {
            reveal_strlit("/assets/map.png");
        }
        Some(Self { image: ImageMeta { w, h, url }, stations, edges })
    }
}

/// Where the map image is served.
pub open spec fn map_url() -> Seq<char> {
    seq!['/', 'a', 's', 's', 'e', 't', 's', '/', 'm', 'a', 'p', '.', 'p', 'n', 'g']
}

} // verus!
