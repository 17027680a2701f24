//! The board: its fixed topology, arrangements of tokens, and moves.

use vstd::prelude::*;

verus! {

/// Identifier of the hub. The outer ring holds the locations 1 to 6.
pub const HUB: usize = 0;

/// Number of locations on the board.
pub const NUM_LOCATIONS: usize = 7;

/// Why a board operation or a search failed.
#[derive(Debug, Clone, Copy, PartialEq, Eq)]
pub enum PuzzleError {
    /// The starting mapping misses an outer location, names one twice, or
    /// holds an identifier that is not an outer location.
    MalformedInput,
    /// A move whose target is not the empty location, whose source is empty,
    /// or whose two ends are not adjacent.
    IllegalMove,
    /// A search path reached the depth bound without solving.
    DepthExceeded,
    /// No solved arrangement lies within the depth bound.
    NoSolutionFound,
}

/// Slide the token at `from` into the empty location `to`.
#[derive(Debug, Clone, Copy, PartialEq, Eq)]
pub struct Move {
    pub from: usize,
    pub to: usize,
}

impl Move {
    /// The move that undoes this one.
    pub open spec fn inverse(self) -> Move {
        Move { from: self.to, to: self.from }
    }

    pub fn backwards_move(&self) -> (r: Move)
        ensures
            r == self.inverse(),
    {
        Move { from: self.to, to: self.from }
    }
}

/// True when `data` is what `location` holds in a solved arrangement: the
/// token of the same number on an outer location, nothing on the hub.
pub open spec fn placed(location: int, data: Option<u8>) -> bool {
    match data {
        Some(t) => t as int == location,
        None => location == HUB as int,
    }
}

/// One location of an arrangement together with what it holds.
#[derive(Debug, Clone, Copy, PartialEq, Eq)]
pub struct GraphNode {
    pub location: usize,
    pub data: Option<u8>,
}

impl GraphNode {
    pub fn is_placed(&self) -> (r: bool)
        ensures
            r == placed(self.location as int, self.data),
    {
        match self.data {
            Some(t) => t as usize == self.location,
            None => self.location == HUB,
        }
    }
}


/// The locations adjacent to `l`, in the order moves are proposed: for an
/// outer location its successor and predecessor on the ring, then the hub;
/// for the hub the outer locations in increasing order.
pub open spec fn neighbors_of(l: int) -> Seq<usize> {
    if l == HUB as int {
        seq![1usize, 2usize, 3usize, 4usize, 5usize, 6usize]
    } else {
        seq![(l % 6 + 1) as usize, ((l + 4) % 6 + 1) as usize, HUB]
    }
}

/// Adjacency of the board: every outer location touches the hub and its two
/// ring neighbours.
pub open spec fn adjacent(a: int, b: int) -> bool {
    &&& 0 <= a < NUM_LOCATIONS as int
    &&& 0 <= b < NUM_LOCATIONS as int
    &&& a != b
    &&& (a == HUB as int || b == HUB as int || b == a % 6 + 1 || a == b % 6 + 1)
}

/// The neighbour lists hold exactly the adjacent locations.
pub proof fn lemma_neighbors_exact(l: int)
    requires
        0 <= l < NUM_LOCATIONS as int,
    ensures
        forall|i: int| 0 <= i < neighbors_of(l).len() ==> adjacent(l, #[trigger] neighbors_of(l)[i] as int),
        forall|b: int| adjacent(l, b) ==> neighbors_of(l).contains(b as usize),
        2 <= neighbors_of(l).len() <= 6,
{
    let n = neighbors_of(l);
    assert forall|b: int| adjacent(l, b) implies n.contains(b as usize) by {
        if l == 0 {
            assert(n[b - 1] == b as usize);
        } else if b == 0 {
            assert(n[2] == b as usize);
        } else if b == l % 6 + 1 {
            assert(n[0] == b as usize);
        } else {
            assert(n[1] == b as usize);
        }
    }
}

/// Adjacency is symmetric, so every move can be undone.
pub proof fn lemma_adjacency_symmetric(a: int, b: int)
    ensures
        adjacent(a, b) == adjacent(b, a),
{
}

/// The board's adjacency lists, built once and shared by all operations.
pub struct Graph {
    neighbors: Vec<Vec<usize>>,
}

impl Graph {
    /// The graph holds the fixed topology of the board.
    pub closed spec fn wf(&self) -> bool {
        &&& self.neighbors@.len() == NUM_LOCATIONS as int
        &&& forall|l: int| 0 <= l < NUM_LOCATIONS as int ==> (#[trigger] self.neighbors@[l])@ == neighbors_of(l)
    }

    /// The neighbours of location `l`.
    pub fn neighbors(&self, l: usize) -> (r: &Vec<usize>)
        requires
            self.wf(),
            l < NUM_LOCATIONS,
        ensures
            r@ == neighbors_of(l as int),
    {
        &self.neighbors[l]
    }
}

/// Builds the adjacency graph of the board.
pub fn build_graph() -> (g: Graph)
    ensures
        g.wf(),
{
    let mut neighbors: Vec<Vec<usize>> = Vec::new();
    neighbors.push(vec![1, 2, 3, 4, 5, 6]);
    let mut l: usize = 1;
    while l < NUM_LOCATIONS
        invariant
            1 <= l <= NUM_LOCATIONS,
            neighbors@.len() == l,
            forall|k: int| 0 <= k < l ==> (#[trigger] neighbors@[k])@ == neighbors_of(k),
        decreases NUM_LOCATIONS - l,
    {
        let up: usize = l % 6 + 1;
        let down: usize = (l + 4) % 6 + 1;
        let row = vec![up, down, HUB];
        assert(row@ =~= neighbors_of(l as int));
        neighbors.push(row);
        l = l + 1;
    }
    let g = Graph { neighbors };
    assert(g.neighbors@[0]@ =~= neighbors_of(0));
    g
}


/// A token is named by the outer location it belongs to.
pub open spec fn token_ok(t: u8) -> bool {
    1 <= t <= 6
}

/// `e` is the one empty location of `s`.
pub open spec fn empty_at(s: Seq<Option<u8>>, e: int) -> bool {
    &&& 0 <= e < s.len()
    &&& s[e] is None
    &&& forall|i: int| 0 <= i < s.len() && i != e ==> (#[trigger] s[i]) is Some
}

/// What every arrangement satisfies: one entry per location, exactly one of
/// them empty, and only known tokens.
pub open spec fn arrangement_ok(s: Seq<Option<u8>>) -> bool {
    &&& s.len() == NUM_LOCATIONS as int
    &&& exists|e: int| empty_at(s, e)
    &&& forall|i: int|
        0 <= i < s.len() ==> match #[trigger] s[i] {
            Some(t) => token_ok(t),
            None => true,
        }
}

/// The empty location of a well-formed arrangement.
pub open spec fn empty_of(s: Seq<Option<u8>>) -> int {
    choose|e: int| empty_at(s, e)
}

pub proof fn lemma_empty_unique(s: Seq<Option<u8>>, e: int)
    requires
        arrangement_ok(s),
        0 <= e < s.len(),
        s[e] is None,
    ensures
        empty_at(s, e),
        empty_of(s) == e,
{
    let c = empty_of(s);
    assert(empty_at(s, c));
}

/// Every location is placed.
pub open spec fn solved(s: Seq<Option<u8>>) -> bool {
    forall|l: int| 0 <= l < s.len() ==> placed(l, #[trigger] s[l])
}

/// `m` may be applied to `s`: it pulls a token from a location adjacent to
/// the empty one into it.
pub open spec fn legal(s: Seq<Option<u8>>, m: Move) -> bool {
    &&& s.len() == NUM_LOCATIONS as int
    &&& adjacent(m.from as int, m.to as int)
    &&& s[m.to as int] is None
    &&& s[m.from as int] is Some
}

/// The arrangement after applying `m` to `s`.
pub open spec fn step(s: Seq<Option<u8>>, m: Move) -> Seq<Option<u8>> {
    s.update(m.to as int, s[m.from as int]).update(m.from as int, None)
}

/// A legal move keeps an arrangement well formed, leaving its source empty.
pub proof fn lemma_step_ok(s: Seq<Option<u8>>, m: Move)
    requires
        arrangement_ok(s),
        legal(s, m),
    ensures
        arrangement_ok(step(s, m)),
        empty_of(s) == m.to as int,
        empty_of(step(s, m)) == m.from as int,
{
    let t = step(s, m);
    lemma_empty_unique(s, m.to as int);
    assert(empty_at(t, m.from as int));
    lemma_empty_unique(t, m.from as int);
}

/// Applying a legal move and then its inverse gives back the arrangement
/// one started from; the inverse is legal after the move.
pub proof fn lemma_round_trip(s: Seq<Option<u8>>, m: Move)
    requires
        arrangement_ok(s),
        legal(s, m),
    ensures
        legal(step(s, m), m.inverse()),
        step(step(s, m), m.inverse()) == s,
{
    lemma_adjacency_symmetric(m.from as int, m.to as int);
    assert(step(step(s, m), m.inverse()) =~= s);
}

/// The number that stands for what a location holds: the token, or 0.
pub open spec fn code(d: Option<u8>) -> u32 {
    match d {
        Some(t) => t as u32,
        None => 0u32,
    }
}

/// Packs seven codes, three bits each.
pub open spec fn pack(c1: u32, c2: u32, c3: u32, c4: u32, c5: u32, c6: u32, c0: u32) -> u32 {
    c1 | (c2 << 3u32) | (c3 << 6u32) | (c4 << 9u32) | (c5 << 12u32) | (c6 << 15u32) | (c0 << 18u32)
}

/// The key of an arrangement: what the outer locations 1 to 6 and then the
/// hub hold, three bits each.
pub open spec fn fingerprint(s: Seq<Option<u8>>) -> u32 {
    pack(code(s[1]), code(s[2]), code(s[3]), code(s[4]), code(s[5]), code(s[6]), code(s[0]))
}

proof fn lemma_pack_injective(
    a1: u32, a2: u32, a3: u32, a4: u32, a5: u32, a6: u32, a0: u32,
    b1: u32, b2: u32, b3: u32, b4: u32, b5: u32, b6: u32, b0: u32,
)
    requires
        a1 < 8, a2 < 8, a3 < 8, a4 < 8, a5 < 8, a6 < 8, a0 < 8,
        b1 < 8, b2 < 8, b3 < 8, b4 < 8, b5 < 8, b6 < 8, b0 < 8,
        pack(a1, a2, a3, a4, a5, a6, a0) == pack(b1, b2, b3, b4, b5, b6, b0),
    ensures
        a1 == b1 && a2 == b2 && a3 == b3 && a4 == b4 && a5 == b5 && a6 == b6 && a0 == b0,
{
    assert(a1 == b1 && a2 == b2 && a3 == b3 && a4 == b4 && a5 == b5 && a6 == b6 && a0 == b0)
        by (bit_vector)
        requires
            a1 < 8, a2 < 8, a3 < 8, a4 < 8, a5 < 8, a6 < 8, a0 < 8,
            b1 < 8, b2 < 8, b3 < 8, b4 < 8, b5 < 8, b6 < 8, b0 < 8,
            a1 | (a2 << 3u32) | (a3 << 6u32) | (a4 << 9u32) | (a5 << 12u32) | (a6 << 15u32) | (a0 << 18u32)
                == b1 | (b2 << 3u32) | (b3 << 6u32) | (b4 << 9u32) | (b5 << 12u32) | (b6 << 15u32) | (b0 << 18u32),
    ;
}

/// Two well-formed arrangements share a fingerprint exactly when every
/// location holds the same thing in both.
pub proof fn lemma_fingerprint_injective(s: Seq<Option<u8>>, t: Seq<Option<u8>>)
    requires
        arrangement_ok(s),
        arrangement_ok(t),
    ensures
        fingerprint(s) == fingerprint(t) <==> s == t,
{
    if fingerprint(s) == fingerprint(t) {
        assert forall|i: int| 0 <= i < 7 implies code(#[trigger] s[i]) < 8 && code(t[i]) < 8 by {
            assert(match s[i] { Some(x) => token_ok(x), None => true });
            assert(match t[i] { Some(x) => token_ok(x), None => true });
        }
        lemma_pack_injective(
            code(s[1]), code(s[2]), code(s[3]), code(s[4]), code(s[5]), code(s[6]), code(s[0]),
            code(t[1]), code(t[2]), code(t[3]), code(t[4]), code(t[5]), code(t[6]), code(t[0]),
        );
        assert forall|i: int| 0 <= i < 7 implies #[trigger] s[i] == t[i] by {
            assert(code(s[i]) == code(t[i]));
            assert(match s[i] { Some(x) => token_ok(x), None => true });
            assert(match t[i] { Some(x) => token_ok(x), None => true });
        }
        assert(s =~= t);
    }
}


/// An assignment of tokens to the locations of the board, one of them empty.
#[derive(Debug)]
pub struct Arrangement {
    nodes: Vec<GraphNode>,
}

impl View for Arrangement {
    /// What each location holds, indexed by location.
    type V = Seq<Option<u8>>;

    closed spec fn view(&self) -> Seq<Option<u8>> {
        self.nodes@.map_values(|n: GraphNode| n.data)
    }
}

impl Arrangement {
    /// Each node stands at the index of its own location.
    closed spec fn labelled(&self) -> bool {
        forall|i: int| 0 <= i < self.nodes@.len() ==> (#[trigger] self.nodes@[i]).location == i
    }

    pub closed spec fn wf(&self) -> bool {
        &&& arrangement_ok(self@)
        &&& self.labelled()
    }

    pub proof fn lemma_wf(&self)
        requires
            self.wf(),
        ensures
            arrangement_ok(self@),
    {
    }

    /// What location `l` holds.
    pub fn get(&self, l: usize) -> (r: Option<u8>)
        requires
            self.wf(),
            l < NUM_LOCATIONS,
        ensures
            r == self@[l as int],
    {
        self.nodes[l].data
    }

    /// An independent copy of this arrangement.
    pub fn duplicate(&self) -> (r: Arrangement)
        requires
            self.wf(),
        ensures
            r.wf(),
            r@ == self@,
    {
        let mut nodes: Vec<GraphNode> = Vec::new();
        let mut i: usize = 0;
        while i < self.nodes.len()
            invariant
                i <= self.nodes@.len(),
                nodes@ =~= self.nodes@.subrange(0, i as int),
            decreases self.nodes@.len() - i,
        {
            nodes.push(self.nodes[i]);
            i = i + 1;
        }
        let r = Arrangement { nodes };
        assert(r@ =~= self@);
        r
    }
}

/// The number that stands for what a location holds: the token, or 0 when
/// it is empty.
pub fn data_hash(data: Option<u8>) -> (r: u32)
    ensures
        r == code(data),
{
    match data {
        Some(t) => t as u32,
        None => 0,
    }
}

/// The fingerprint of an arrangement, a key that tells arrangements apart.
pub fn state_hash(a: &Arrangement) -> (r: u32)
    requires
        a.wf(),
    ensures
        r == fingerprint(a@),
{
    let c1 = data_hash(a.get(1));
    let c2 = data_hash(a.get(2));
    let c3 = data_hash(a.get(3));
    let c4 = data_hash(a.get(4));
    let c5 = data_hash(a.get(5));
    let c6 = data_hash(a.get(6));
    let c0 = data_hash(a.get(HUB));
    c1 | (c2 << 3u32) | (c3 << 6u32) | (c4 << 9u32) | (c5 << 12u32) | (c6 << 15u32) | (c0 << 18u32)
}

/// Whether every location is placed.
pub fn is_solved(a: &Arrangement) -> (r: bool)
    requires
        a.wf(),
    ensures
        r == solved(a@),
{
    let mut i: usize = 0;
    while i < a.nodes.len()
        invariant
            a.wf(),
            i <= a.nodes@.len(),
            forall|l: int| 0 <= l < i ==> placed(l, #[trigger] a@[l]),
        decreases a.nodes@.len() - i,
    {
        if !a.nodes[i].is_placed() {
            assert(a.nodes@[i as int].location == i);
            assert(!placed(i as int, a@[i as int]));
            return false;
        }
        i = i + 1;
    }
    true
}

/// Finds the empty location.
fn find_empty(a: &Arrangement) -> (e: usize)
    requires
        a.wf(),
    ensures
        e as int == empty_of(a@),
        empty_at(a@, e as int),
{
    proof {
        let c = empty_of(a@);
        assert(empty_at(a@, c));
    }
    let mut i: usize = 0;
    while i < a.nodes.len()
        invariant
            a.wf(),
            i <= a.nodes@.len(),
            forall|l: int| 0 <= l < i ==> (#[trigger] a@[l]) is Some,
        decreases a.nodes@.len() - i,
    {
        if a.nodes[i].data.is_none() {
            proof {
                lemma_empty_unique(a@, i as int);
            }
            return i;
        }
        i = i + 1;
    }
    proof {
        let c = empty_of(a@);
        assert(a@[c] is Some);
    }
    0
}

/// One move for each location adjacent to the empty one, pulling its token
/// into the empty location, in the order of the neighbour list.
pub fn move_possibilities(graph: &Graph, a: &Arrangement) -> (r: Vec<Move>)
    requires
        graph.wf(),
        a.wf(),
    ensures
        r@.len() == neighbors_of(empty_of(a@)).len(),
        3 <= r@.len() <= 6,
        forall|i: int|
            0 <= i < r@.len() ==> #[trigger] r@[i] == (Move { from: neighbors_of(empty_of(a@))[i], to: empty_of(a@) as usize }),
        forall|i: int| 0 <= i < r@.len() ==> legal(a@, #[trigger] r@[i]),
        forall|m: Move| legal(a@, m) ==> r@.contains(m),
{
    let e = find_empty(a);
    let ns = graph.neighbors(e);
    let mut r: Vec<Move> = Vec::new();
    let mut i: usize = 0;
    proof {
        lemma_neighbors_exact(e as int);
    }
    while i < ns.len()
        invariant
            a.wf(),
            e as int == empty_of(a@),
            empty_at(a@, e as int),
            ns@ == neighbors_of(e as int),
            i <= ns@.len(),
            r@.len() == i,
            forall|j: int| 0 <= j < i ==> #[trigger] r@[j] == (Move { from: ns@[j], to: e }),
        decreases ns@.len() - i,
    {
        r.push(Move { from: ns[i], to: e });
        i = i + 1;
    }
    proof {
        assert forall|j: int| 0 <= j < r@.len() implies legal(a@, #[trigger] r@[j]) by {
            assert(adjacent(e as int, ns@[j] as int));
            lemma_adjacency_symmetric(e as int, ns@[j] as int);
        }
        assert forall|m: Move| legal(a@, m) implies r@.contains(m) by {
            lemma_empty_unique(a@, m.to as int);
            lemma_adjacency_symmetric(e as int, m.from as int);
            let j = choose|j: int| 0 <= j < ns@.len() && ns@[j] == m.from;
            assert(r@[j] == m);
        }
    }
    r
}


/// Applies `m` to `a`, returning the new arrangement and leaving `a` as it
/// was; fails when the move is not legal.
pub fn move_data(graph: &Graph, a: &Arrangement, m: Move) -> (r: Result<Arrangement, PuzzleError>)
    requires
        graph.wf(),
        a.wf(),
    ensures
        match r {
            Ok(b) => legal(a@, m) && b.wf() && b@ == step(a@, m),
            Err(e) => !legal(a@, m) && e == PuzzleError::IllegalMove,
        },
{
    if m.from >= NUM_LOCATIONS || m.to >= NUM_LOCATIONS {
        return Err(PuzzleError::IllegalMove);
    }
    let token = match a.get(m.from) {
        Some(t) => t,
        None => {
            return Err(PuzzleError::IllegalMove);
        },
    };
    if a.get(m.to).is_some() {
        return Err(PuzzleError::IllegalMove);
    }
    let ns = graph.neighbors(m.to);
    proof {
        lemma_neighbors_exact(m.to as int);
        lemma_adjacency_symmetric(m.from as int, m.to as int);
    }
    let mut found = false;
    let mut i: usize = 0;
    while i < ns.len()
        invariant
            ns@ == neighbors_of(m.to as int),
            i <= ns@.len(),
            found == exists|j: int| 0 <= j < i && ns@[j] == m.from,
        decreases ns@.len() - i,
    {
        if ns[i] == m.from {
            found = true;
        }
        i = i + 1;
    }
    if !found {
        proof {
            if adjacent(m.to as int, m.from as int) {
                assert(ns@.contains(m.from));
            }
        }
        return Err(PuzzleError::IllegalMove);
    }
    proof {
        let j = choose|j: int| 0 <= j < ns@.len() && ns@[j] == m.from;
        assert(adjacent(m.to as int, ns@[j] as int));
    }
    let mut b = a.duplicate();
    b.nodes.set(m.to, GraphNode { location: m.to, data: Some(token) });
    b.nodes.set(m.from, GraphNode { location: m.from, data: None });
    proof {
        assert(b@ =~= step(a@, m));
        lemma_step_ok(a@, m);
    }
    Ok(b)
}

/// `c` names an outer location (or the token that belongs there).
pub open spec fn outer_label(c: char) -> bool {
    '1' <= c <= '6'
}

/// The number a label stands for.
pub open spec fn label_value(c: char) -> int {
    c as int - '0' as int
}

/// A starting mapping: pairs of an outer location and the token it holds,
/// with every outer location named exactly once and only known identifiers.
pub open spec fn mapping_ok(m: Seq<(char, char)>) -> bool {
    &&& forall|i: int| 0 <= i < m.len() ==> outer_label((#[trigger] m[i]).0) && outer_label(m[i].1)
    &&& forall|i: int, j: int| 0 <= i < j < m.len() ==> (#[trigger] m[i]).0 != (#[trigger] m[j]).0
    &&& forall|l: int| 1 <= l <= 6 ==> #[trigger] names_location(m, l)
}

/// Some pair of `m` names location `l`.
pub open spec fn names_location(m: Seq<(char, char)>, l: int) -> bool {
    exists|i: int| 0 <= i < m.len() && label_value(m[i].0) == l
}

/// The token that the last pair of `m` naming location `l` assigns to it.
pub open spec fn token_in(m: Seq<(char, char)>, l: int) -> Option<u8>
    decreases m.len(),
{
    if m.len() == 0 {
        None
    } else if label_value(m.last().0) == l {
        Some(label_value(m.last().1) as u8)
    } else {
        token_in(m.drop_last(), l)
    }
}

/// The arrangement a mapping describes: the hub empty and every outer
/// location holding the token that the mapping assigns to it.
pub open spec fn start_of(m: Seq<(char, char)>) -> Seq<Option<u8>> {
    Seq::new(NUM_LOCATIONS as nat, |l: int| if l == HUB as int { None } else { token_in(m, l) })
}

proof fn lemma_token_in(m: Seq<(char, char)>, i: int)
    requires
        0 <= i < m.len(),
        forall|a: int, b: int| 0 <= a < b < m.len() ==> (#[trigger] m[a]).0 != (#[trigger] m[b]).0,
    ensures
        token_in(m, label_value(m[i].0)) == Some(label_value(m[i].1) as u8),
    decreases m.len(),
{
    if i < m.len() - 1 {
        assert(m[i].0 != m[m.len() - 1].0);
        let d = m.drop_last();
        assert(d[i] == m[i]);
        assert forall|a: int, b: int| 0 <= a < b < d.len() implies (#[trigger] d[a]).0 != (#[trigger] d[b]).0 by {
            assert(d[a] == m[a] && d[b] == m[b]);
        }
        lemma_token_in(d, i);
    }
}

/// The index of the pair that names location `l`, if any.
fn find_location(m: &Vec<(char, char)>, l: u32) -> (r: Option<usize>)
    requires
        forall|i: int| 0 <= i < m@.len() ==> outer_label((#[trigger] m@[i]).0),
    ensures
        match r {
            Some(i) => i < m@.len() && label_value(m@[i as int].0) == l as int,
            None => forall|i: int| 0 <= i < m@.len() ==> label_value(#[trigger] m@[i].0) != l as int,
        },
{
    let mut i: usize = 0;
    while i < m.len()
        invariant
            i <= m@.len(),
            forall|i: int| 0 <= i < m@.len() ==> outer_label((#[trigger] m@[i]).0),
            forall|j: int| 0 <= j < i ==> label_value(#[trigger] m@[j].0) != l as int,
        decreases m@.len() - i,
    {
        let (loc, _) = m[i];
        assert(outer_label(m@[i as int].0));
        if loc as u32 - '0' as u32 == l {
            return Some(i);
        }
        i = i + 1;
    }
    None
}

/// Builds the starting arrangement from a mapping of outer location labels
/// to token labels; the hub starts empty. Fails when the mapping misses an
/// outer location, names one twice, or holds an unknown identifier.
pub fn load_map(m: &Vec<(char, char)>) -> (r: Result<Arrangement, PuzzleError>)
    ensures
        r is Ok <==> mapping_ok(m@),
        match r {
            Ok(a) => {
                &&& a.wf()
                &&& a@ == start_of(m@)
                &&& a@[HUB as int] is None
                &&& forall|i: int|
                    0 <= i < m@.len() ==> a@[label_value((#[trigger] m@[i]).0)] == Some(
                        label_value(m@[i].1) as u8,
                    )
            },
            Err(e) => e == PuzzleError::MalformedInput,
        },
{
    let mut i: usize = 0;
    while i < m.len()
        invariant
            i <= m@.len(),
            forall|k: int| 0 <= k < i ==> outer_label((#[trigger] m@[k]).0) && outer_label(m@[k].1),
            forall|k: int, j: int| 0 <= k < j < i ==> (#[trigger] m@[k]).0 != (#[trigger] m@[j]).0,
        decreases m@.len() - i,
    {
        let (loc, tok) = m[i];
        if !('1' <= loc && loc <= '6' && '1' <= tok && tok <= '6') {
            return Err(PuzzleError::MalformedInput);
        }
        let mut j: usize = 0;
        while j < i
            invariant
                i < m@.len(),
                j <= i,
                loc == m@[i as int].0,
                forall|k: int| 0 <= k < j ==> (#[trigger] m@[k]).0 != loc,
            decreases i - j,
        {
            if m[j].0 == loc {
                return Err(PuzzleError::MalformedInput);
            }
            j = j + 1;
        }
        i = i + 1;
    }
    let mut nodes: Vec<GraphNode> = Vec::new();
    nodes.push(GraphNode { location: HUB, data: None });
    let mut l: u32 = 1;
    while l <= 6
        invariant
            1 <= l <= 7,
            nodes@.len() == l,
            nodes@[0] == (GraphNode { location: HUB, data: None }),
            forall|k: int| 0 <= k < m@.len() ==> outer_label((#[trigger] m@[k]).0) && outer_label(m@[k].1),
            forall|k: int, j: int| 0 <= k < j < m@.len() ==> (#[trigger] m@[k]).0 != (#[trigger] m@[j]).0,
            forall|k: int| 0 <= k < nodes@.len() ==> (#[trigger] nodes@[k]).location == k,
            forall|k: int| 1 <= k < nodes@.len() ==> match (#[trigger] nodes@[k]).data {
                Some(t) => token_ok(t),
                None => false,
            },
            forall|k: int| 0 <= k < m@.len() && label_value((#[trigger] m@[k]).0) < l ==> nodes@[label_value(m@[k].0)].data == Some(label_value(m@[k].1) as u8),
            forall|v: int| 1 <= v < l ==> #[trigger] names_location(m@, v),
        decreases 7 - l,
    {
        match find_location(m, l) {
            None => {
                assert(!names_location(m@, l as int));
                return Err(PuzzleError::MalformedInput);
            },
            Some(k) => {
                let tok = m[k].1;
                let t: u8 = (tok as u32 - '0' as u32) as u8;
                assert(names_location(m@, l as int));
                nodes.push(GraphNode { location: l as usize, data: Some(t) });
                proof {
                    assert forall|k2: int| 0 <= k2 < m@.len() && label_value((#[trigger] m@[k2]).0) < l + 1 implies nodes@[label_value(m@[k2].0)].data == Some(label_value(m@[k2].1) as u8) by {
                        if label_value(m@[k2].0) == l as int && k2 != k {
                            if k2 < k {
                                assert(m@[k2].0 != m@[k as int].0);
                            } else {
                                assert(m@[k as int].0 != m@[k2].0);
                            }
                        }
                    }
                }
                l = l + 1;
            },
        }
    }
    let a = Arrangement { nodes };
    proof {
        assert forall|l: int| 0 <= l < NUM_LOCATIONS as int implies #[trigger] a@[l] == start_of(m@)[l] by {
            if l != 0 {
                assert(names_location(m@, l));
                let k = choose|k: int| 0 <= k < m@.len() && label_value(m@[k].0) == l;
                lemma_token_in(m@, k);
            }
        }
        assert(a@ =~= start_of(m@));
        assert(empty_at(a@, 0));
        assert forall|i: int| 0 <= i < a@.len() implies match #[trigger] a@[i] {
            Some(t) => token_ok(t),
            None => true,
        } by {
            if i > 0 {
                assert(match a.nodes@[i].data { Some(t) => token_ok(t), None => false });
            }
        }
    }
    Ok(a)
}

} // verus!
