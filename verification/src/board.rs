use vstd::prelude::*;
use crate::rng::rand_below;

verus! {

/// One ownable region of the board: its owner, its force count, and the
/// indices of the territories it borders.
#[derive(Debug)]
pub struct Territory {
    pub owner: usize,
    pub dice: u32,
    pub connections: Vec<usize>,
}

impl Territory {
    pub fn new(owner: usize, dice: u32, connections: Vec<usize>) -> (t: Territory)
        ensures
            t.owner == owner,
            t.dice == dice,
            t.connections == connections,
    {
        Territory { owner, dice, connections }
    }
}

/// Configuration consumed by the board generator.
#[derive(Debug, Clone, Copy)]
pub struct BoardGenSettings {
    pub player_count: usize,
    pub board_size: usize,
}

/// The rules state of one game: the turn pointer, the rotation of surviving
/// player ids, and the territories.
#[derive(Debug)]
pub struct Board {
    turn: usize,
    player_order: Vec<usize>,
    territories: Vec<Territory>,
    players: usize,
}

/// How many territories of `ts` the player `p` owns.
pub open spec fn count_owned(ts: Seq<Territory>, p: int) -> nat
    decreases ts.len(),
{
    if ts.len() == 0 {
        0
    } else {
        count_owned(ts.drop_last(), p) + (if ts.last().owner == p {
            1nat
        } else {
            0nat
        })
    }
}

pub proof fn lemma_count_owned_le_len(ts: Seq<Territory>, p: int)
    ensures
        count_owned(ts, p) <= ts.len(),
    decreases ts.len(),
{
    if ts.len() > 0 {
        lemma_count_owned_le_len(ts.drop_last(), p);
    }
}

/// Replacing one territory changes an owner's count in the evident way.
pub proof fn lemma_count_owned_update(ts: Seq<Territory>, k: int, t: Territory, p: int)
    requires
        0 <= k < ts.len(),
    ensures
        count_owned(ts.update(k, t), p) == count_owned(ts, p) - (if ts[k].owner == p {
            1int
        } else {
            0int
        }) + (if t.owner == p {
            1int
        } else {
            0int
        }),
    decreases ts.len(),
{
    if k == ts.len() - 1 {
        assert(ts.update(k, t).drop_last() =~= ts.drop_last());
    } else {
        assert(ts.update(k, t).drop_last() =~= ts.drop_last().update(k, t));
        lemma_count_owned_update(ts.drop_last(), k, t, p);
    }
}

/// A player that owns no listed territory counts zero.
pub proof fn lemma_count_owned_none(ts: Seq<Territory>, p: int)
    requires
        forall|k: int| 0 <= k < ts.len() ==> (#[trigger] ts[k]).owner != p,
    ensures
        count_owned(ts, p) == 0,
    decreases ts.len(),
{
    if ts.len() > 0 {
        lemma_count_owned_none(ts.drop_last(), p);
    }
}

/// When every territory of owner `p` carries `d` dice, the owner's total
/// force is `d` times its count.
pub proof fn lemma_dice_sum_uniform(ts: Seq<Territory>, p: int, d: int)
    requires
        forall|k: int| 0 <= k < ts.len() && (#[trigger] ts[k]).owner == p ==> ts[k].dice == d,
    ensures
        dice_sum_of(ts, p) == d * count_owned(ts, p),
    decreases ts.len(),
{
    if ts.len() > 0 {
        let dl = ts.drop_last();
        assert forall|k: int|
            0 <= k < dl.len() && (#[trigger] dl[k]).owner == p implies dl[k].dice == d by {
            assert(dl[k] == ts[k]);
        }
        lemma_dice_sum_uniform(dl, p, d);
        let c = count_owned(dl, p) as int;
        assert(ts[ts.len() - 1] == ts.last());
        if ts.last().owner == p {
            assert(ts.last().dice == d);
            assert(dice_sum_of(ts, p) == d * c + d);
            assert(count_owned(ts, p) == c + 1);
            assert(d * (c + 1) == d * c + d) by (nonlinear_arith);
            assert(d * (count_owned(ts, p) as int) == d * (c + 1)) by (nonlinear_arith)
                requires
                    count_owned(ts, p) == c + 1,
            ;
        } else {
            assert(dice_sum_of(ts, p) == d * c);
            assert(count_owned(ts, p) == c);
            assert(d * (count_owned(ts, p) as int) == d * c) by (nonlinear_arith)
                requires
                    count_owned(ts, p) == c,
            ;
        }
    } else {
        assert(count_owned(ts, p) == 0);
        assert(d * (count_owned(ts, p) as int) == 0) by (nonlinear_arith)
            requires
                count_owned(ts, p) == 0,
        ;
    }
}

/// With the cap respected, an owner's total force is at most eight times
/// its count.
pub proof fn lemma_dice_sum_le_cap(ts: Seq<Territory>, p: int)
    requires
        forall|k: int| 0 <= k < ts.len() ==> (#[trigger] ts[k]).dice <= 8,
    ensures
        dice_sum_of(ts, p) <= 8 * count_owned(ts, p),
    decreases ts.len(),
{
    if ts.len() > 0 {
        assert forall|k: int| 0 <= k < ts.drop_last().len() implies (
        #[trigger] ts.drop_last()[k]).dice <= 8 by {
            assert(ts.drop_last()[k] == ts[k]);
        }
        lemma_dice_sum_le_cap(ts.drop_last(), p);
        let c = count_owned(ts.drop_last(), p) as int;
        assert(ts[ts.len() - 1] == ts.last());
        assert(8 * (c + 1) == 8 * c + 8) by (nonlinear_arith);
    }
}

/// Structural validity: the turn pointer is in range, the turn order holds
/// distinct player ids below `players`, owners are player ids below
/// `players`, forces respect the cap of 8, and connections are indices of
/// other territories.
pub open spec fn parts_wf(players: int, turn: int, order: Seq<usize>, ts: Seq<Territory>) -> bool {
    let n = ts.len();
    &&& (order.len() == 0 ==> turn == 0)
    &&& (order.len() > 0 ==> turn < order.len())
    &&& order.no_duplicates()
    &&& forall|i: int| 0 <= i < order.len() ==> (#[trigger] order[i]) < players
    &&& n <= 0xFFFF_FFFF
    &&& forall|k: int| 0 <= k < n ==> (#[trigger] ts[k]).owner < players
    &&& forall|k: int| 0 <= k < n ==> (#[trigger] ts[k]).dice <= 8
    &&& forall|k: int, j: int|
        0 <= k < n && 0 <= j < ts[k].connections@.len() ==> (#[trigger] ts[k].connections@[j]) < n
            && ts[k].connections@[j] != k
}

impl Board {
    pub closed spec fn spec_turn(self) -> int {
        self.turn as int
    }

    pub closed spec fn spec_order(self) -> Seq<usize> {
        self.player_order@
    }

    pub closed spec fn spec_territories(self) -> Seq<Territory> {
        self.territories@
    }

    /// The number of player ids the board was created for; owners and the
    /// turn order draw from `0 .. spec_players()`.
    pub closed spec fn spec_players(self) -> int {
        self.players as int
    }

    /// Structural validity of a board assembled from these parts.
    pub open spec fn wf(self) -> bool {
        parts_wf(self.spec_players(), self.spec_turn(), self.spec_order(), self.spec_territories())
    }

    /// Assembles a board from parts, checking the structural invariant;
    /// returns a board exactly when the parts are valid.
    pub fn from_parts(players: usize, turn: usize, player_order: Vec<usize>, territories: Vec<
        Territory,
    >) -> (r: Option<Board>)
        ensures
            r is Some <==> parts_wf(players as int, turn as int, player_order@, territories@),
            r is Some ==> ({
                let b = r->Some_0;
                &&& b.wf()
                &&& b.spec_players() == players
                &&& b.spec_turn() == turn
                &&& b.spec_order() == player_order@
                &&& b.spec_territories() == territories@
            }),
    {
        let b = Board { turn, player_order, territories, players };
        if b.check_wf() {
            Some(b)
        } else {
            None
        }
    }

    /// Wraps parts the caller has already proved valid; used by the
    /// generator.
    pub(crate) fn assemble(
        players: usize,
        turn: usize,
        player_order: Vec<usize>,
        territories: Vec<Territory>,
    ) -> (b: Board)
        ensures
            b.spec_players() == players,
            b.spec_turn() == turn,
            b.spec_order() == player_order@,
            b.spec_territories() == territories@,
    {
        Board { turn, player_order, territories, players }
    }

    /// Runtime check of the structural invariant.
    fn check_wf(&self) -> (ok: bool)
        ensures
            ok == self.wf(),
    {
        if self.player_order.len() == 0 {
            if self.turn != 0 {
                return false;
            }
        } else {
            if self.turn >= self.player_order.len() {
                return false;
            }
        }
        let order_len = self.player_order.len();
        let mut i: usize = 0;
        while i < order_len
            invariant
                i <= order_len,
                order_len == self.spec_order().len(),
                self.spec_order().subrange(0, i as int).no_duplicates(),
                forall|a: int| 0 <= a < i ==> (#[trigger] self.spec_order()[a]) < self.spec_players(),
            decreases order_len - i,
        {
            if self.player_order[i] >= self.players {
                return false;
            }
            let mut j: usize = 0;
            while j < i
                invariant
                    j <= i < order_len,
                    order_len == self.spec_order().len(),
                    forall|a: int| 0 <= a < j ==> self.spec_order()[a] != self.spec_order()[i as int],
                decreases i - j,
            {
                if self.player_order[j] == self.player_order[i] {
                    return false;
                }
                j = j + 1;
            }
            proof {
                let pre = self.spec_order().subrange(0, i as int);
                let cur = self.spec_order().subrange(0, i + 1);
                assert(cur.drop_last() =~= pre);
                assert forall|a: int, b: int| 0 <= a < b < cur.len() implies cur[a] != cur[b] by {
                    if b < i {
                        assert(pre[a] == cur[a] && pre[b] == cur[b]);
                    } else {
                        assert(cur[a] == self.spec_order()[a] && cur[b] == self.spec_order()[i as int]);
                    }
                }
            }
            i = i + 1;
        }
        proof {
            assert(self.spec_order().subrange(0, order_len as int) =~= self.spec_order());
        }
        if self.territories.len() > 0xFFFF_FFFFusize {
            return false;
        }
        let n = self.territories.len();
        let mut k: usize = 0;
        while k < n
            invariant
                k <= n,
                n == self.spec_territories().len(),
                forall|a: int|
                    0 <= a < k ==> (#[trigger] self.spec_territories()[a]).owner
                        < self.spec_players(),
                forall|a: int| 0 <= a < k ==> (#[trigger] self.spec_territories()[a]).dice <= 8,
                forall|a: int, j: int|
                    0 <= a < k && 0 <= j < self.spec_territories()[a].connections@.len() ==> (
                    #[trigger] self.spec_territories()[a].connections@[j]) < n
                        && self.spec_territories()[a].connections@[j] != a,
            decreases n - k,
        {
            if self.territories[k].owner >= self.players {
                return false;
            }
            if self.territories[k].dice > 8 {
                return false;
            }
            let m = self.territories[k].connections.len();
            let mut j: usize = 0;
            while j < m
                invariant
                    j <= m,
                    k < n,
                    n == self.spec_territories().len(),
                    m == self.spec_territories()[k as int].connections@.len(),
                    forall|a: int|
                        0 <= a < j ==> (#[trigger] self.spec_territories()[k as int].connections@[a])
                            < n && self.spec_territories()[k as int].connections@[a] != k,
                decreases m - j,
            {
                let c = self.territories[k].connections[j];
                if c >= n || c == k {
                    return false;
                }
                j = j + 1;
            }
            k = k + 1;
        }
        true
    }

    /// The owner of one territory.
    pub fn owner(&self, territory: usize) -> (p: usize)
        requires
            territory < self.spec_territories().len(),
        ensures
            p == self.spec_territories()[territory as int].owner,
    {
        self.territories[territory].owner
    }

    /// The force count of one territory.
    pub fn dice(&self, territory: usize) -> (d: u32)
        requires
            territory < self.spec_territories().len(),
        ensures
            d == self.spec_territories()[territory as int].dice,
    {
        self.territories[territory].dice
    }

    /// The adjacency list of one territory.
    pub fn connections(&self, territory: usize) -> (c: Vec<usize>)
        requires
            territory < self.spec_territories().len(),
        ensures
            c@ == self.spec_territories()[territory as int].connections@,
    {
        let mut c: Vec<usize> = Vec::new();
        let m = self.territories[territory].connections.len();
        let mut j: usize = 0;
        while j < m
            invariant
                j <= m,
                territory < self.spec_territories().len(),
                m == self.spec_territories()[territory as int].connections@.len(),
                c@ == self.spec_territories()[territory as int].connections@.subrange(0, j as int),
            decreases m - j,
        {
            c.push(self.territories[territory].connections[j]);
            proof {
                assert(c@ =~= self.spec_territories()[territory as int].connections@.subrange(
                    0,
                    j + 1,
                ));
            }
            j = j + 1;
        }
        proof {
            assert(self.spec_territories()[territory as int].connections@.subrange(0, m as int)
                =~= self.spec_territories()[territory as int].connections@);
        }
        c
    }

    /// How many territories the board holds.
    pub fn territory_count(&self) -> (n: usize)
        ensures
            n == self.spec_territories().len(),
    {
        self.territories.len()
    }

    /// The player whose turn it is.
    pub fn current_player(&self) -> (p: usize)
        requires
            self.wf(),
            self.spec_order().len() > 0,
        ensures
            p == self.spec_order()[self.spec_turn()],
    {
        self.player_order[self.turn]
    }
}


impl Board {
    /// Per-player territory counts, indexed by player id.
    fn count_territories(&self) -> (counts: Vec<u32>)
        requires
            self.wf(),
        ensures
            counts@.len() == self.spec_players(),
            forall|p: int|
                0 <= p < counts@.len() ==> #[trigger] counts@[p] == count_owned(
                    self.spec_territories(),
                    p,
                ),
    {
        let mut counts: Vec<u32> = Vec::new();
        let mut p: usize = 0;
        while p < self.players
            invariant
                counts@.len() == p,
                p <= self.spec_players(),
                forall|a: int| 0 <= a < p ==> #[trigger] counts@[a] == 0,
            decreases self.spec_players() - p,
        {
            counts.push(0);
            p = p + 1;
        }
        proof {
            assert forall|a: int| 0 <= a < counts@.len() implies #[trigger] counts@[a]
                == count_owned(self.spec_territories().subrange(0, 0), a) by {
                assert(self.spec_territories().subrange(0, 0).len() == 0);
            }
        }
        let n = self.territories.len();
        let mut k: usize = 0;
        while k < n
            invariant
                self.wf(),
                k <= n,
                n == self.spec_territories().len(),
                counts@.len() == self.spec_players(),
                forall|a: int|
                    0 <= a < counts@.len() ==> #[trigger] counts@[a] == count_owned(
                        self.spec_territories().subrange(0, k as int),
                        a,
                    ),
            decreases n - k,
        {
            let ghost pre = self.spec_territories().subrange(0, k as int);
            let ghost cur = self.spec_territories().subrange(0, k + 1);
            let o = self.territories[k].owner;
            proof {
                assert(cur.drop_last() =~= pre);
                assert(cur.last() == self.spec_territories()[k as int]);
                lemma_count_owned_le_len(pre, o as int);
            }
            let c = counts[o];
            counts.set(o, c + 1);
            proof {
                assert forall|a: int| 0 <= a < counts@.len() implies #[trigger] counts@[a]
                    == count_owned(cur, a) by {
                    assert(count_owned(cur, a) == count_owned(pre, a) + (if cur.last().owner == a {
                        1nat
                    } else {
                        0nat
                    }));
                }
            }
            k = k + 1;
        }
        proof {
            assert(self.spec_territories().subrange(0, n as int) =~= self.spec_territories());
        }
        counts
    }

    /// The score list in turn order: each surviving player paired with the
    /// number of territories it owns.
    pub open spec fn spec_scores(self) -> Seq<(usize, u32)> {
        Seq::new(
            self.spec_order().len(),
            |i: int|
                (
                    self.spec_order()[i],
                    count_owned(self.spec_territories(), self.spec_order()[i] as int) as u32,
                ),
        )
    }

    /// The turn pointer and the score list; a pure read of the board.
    pub fn scores(&self) -> (r: (usize, Vec<(usize, u32)>))
        requires
            self.wf(),
        ensures
            r.0 == self.spec_turn(),
            r.1@ == self.spec_scores(),
    {
        let counts = self.count_territories();
        let mut scores: Vec<(usize, u32)> = Vec::new();
        let len = self.player_order.len();
        let mut i: usize = 0;
        while i < len
            invariant
                self.wf(),
                i <= len,
                len == self.spec_order().len(),
                counts@.len() == self.spec_players(),
                forall|p: int|
                    0 <= p < counts@.len() ==> #[trigger] counts@[p] == count_owned(
                        self.spec_territories(),
                        p,
                    ),
                scores@ == self.spec_scores().subrange(0, i as int),
            decreases len - i,
        {
            let p = self.player_order[i];
            scores.push((p, counts[p]));
            proof {
                assert(scores@ =~= self.spec_scores().subrange(0, i + 1));
            }
            i = i + 1;
        }
        proof {
            assert(self.spec_scores().subrange(0, len as int) =~= self.spec_scores());
        }
        (self.turn, scores)
    }
}

/// The connections of a territory that belong to a different owner, in
/// order.
pub open spec fn spec_attackable(ts: Seq<Territory>, conn: Seq<usize>, own: int) -> Seq<usize>
    decreases conn.len(),
{
    if conn.len() == 0 {
        Seq::empty()
    } else {
        spec_attackable(ts, conn.drop_last(), own) + (if conn.last() < ts.len() && ts[conn.last() as int].owner != own {
            seq![conn.last()]
        } else {
            Seq::empty()
        })
    }
}

/// What `spec_attackable` holds: exactly the listed neighbours with a
/// different owner.
pub proof fn lemma_spec_attackable_elems(ts: Seq<Territory>, conn: Seq<usize>, own: int)
    ensures
        forall|x: usize|
            #[trigger] spec_attackable(ts, conn, own).contains(x) <==> (conn.contains(x) && x
                < ts.len() && ts[x as int].owner != own),
    decreases conn.len(),
{
    if conn.len() > 0 {
        lemma_spec_attackable_elems(ts, conn.drop_last(), own);
        assert forall|x: usize| #[trigger] spec_attackable(ts, conn, own).contains(x) implies (
        conn.contains(x) && x < ts.len() && ts[x as int].owner != own) by {
            let s = spec_attackable(ts, conn, own);
            let i = choose|i: int| 0 <= i < s.len() && s[i] == x;
            let pre = spec_attackable(ts, conn.drop_last(), own);
            if i < pre.len() {
                assert(pre.contains(x));
                let j = choose|j: int| 0 <= j < conn.drop_last().len() && conn.drop_last()[j] == x;
                assert(conn[j] == x);
            } else {
                assert(x == conn.last());
                assert(conn[conn.len() - 1] == x);
            }
        }
        assert forall|x: usize| (conn.contains(x) && x < ts.len() && ts[x as int].owner
            != own) implies #[trigger] spec_attackable(ts, conn, own).contains(x) by {
            let s = spec_attackable(ts, conn, own);
            let pre = spec_attackable(ts, conn.drop_last(), own);
            let j = choose|j: int| 0 <= j < conn.len() && conn[j] == x;
            if j < conn.len() - 1 {
                assert(conn.drop_last()[j] == x);
                assert(conn.drop_last().contains(x));
                assert(pre.contains(x));
                let i = choose|i: int| 0 <= i < pre.len() && pre[i] == x;
                assert(s[i] == x);
            } else {
                assert(x == conn.last());
                assert(s[s.len() - 1] == x);
            }
        }
    }
}

impl Board {
    /// The territories that `first` may attack: its neighbours under a
    /// different owner, and only when `first` belongs to the player in turn
    /// and carries more than one die.
    pub fn available_moves(&self, first: usize) -> (moves: Vec<usize>)
        requires
            self.wf(),
            self.spec_order().len() > 0,
            first < self.spec_territories().len(),
        ensures
            ({
                let t = self.spec_territories()[first as int];
                if t.owner == self.spec_order()[self.spec_turn()] && t.dice > 1 {
                    moves@ == spec_attackable(self.spec_territories(), t.connections@, t.owner as int)
                } else {
                    moves@ == Seq::<usize>::empty()
                }
            }),
            self.spec_territories()[first as int].dice <= 1 ==> moves@.len() == 0,
            forall|x: usize|
                #[trigger] moves@.contains(x) ==> x < self.spec_territories().len()
                    && self.spec_territories()[x as int].owner
                    != self.spec_territories()[first as int].owner
                    && self.spec_territories()[first as int].connections@.contains(x),
    {
        let mut moves: Vec<usize> = Vec::new();
        if self.territories[first].owner == self.player_order[self.turn]
            && self.territories[first].dice > 1 {
            let m = self.territories[first].connections.len();
            let ghost conn = self.spec_territories()[first as int].connections@;
            let ghost own = self.spec_territories()[first as int].owner as int;
            let mut j: usize = 0;
            while j < m
                invariant
                    self.wf(),
                    j <= m,
                    first < self.spec_territories().len(),
                    conn == self.spec_territories()[first as int].connections@,
                    own == self.spec_territories()[first as int].owner as int,
                    m == conn.len(),
                    moves@ == spec_attackable(self.spec_territories(), conn.subrange(0, j as int), own),
                decreases m - j,
            {
                let ghost pre = conn.subrange(0, j as int);
                let ghost cur = conn.subrange(0, j + 1);
                proof {
                    assert(cur.drop_last() =~= pre);
                    assert(cur.last() == conn[j as int]);
                }
                let second = self.territories[first].connections[j];
                if self.territories[second].owner != self.territories[first].owner {
                    moves.push(second);
                }
                proof {
                    assert(moves@ =~= spec_attackable(self.spec_territories(), cur, own));
                }
                j = j + 1;
            }
            proof {
                assert(conn.subrange(0, m as int) =~= conn);
            }
        }
        proof {
            let t = self.spec_territories()[first as int];
            if t.owner == self.spec_order()[self.spec_turn()] && t.dice > 1 {
                lemma_spec_attackable_elems(self.spec_territories(), t.connections@, t.owner as int);
            }
        }
        moves
    }
}


/// Total of a sequence of die rolls.
pub open spec fn roll_sum(rolls: Seq<u32>) -> int
    decreases rolls.len(),
{
    if rolls.len() == 0 {
        0
    } else {
        roll_sum(rolls.drop_last()) + rolls.last()
    }
}

/// Sums at most eight rolls of one to five pips.
fn sum_rolls(rolls: &Vec<u32>) -> (s: u32)
    requires
        rolls@.len() <= 8,
        forall|i: int| 0 <= i < rolls@.len() ==> 1 <= #[trigger] rolls@[i] <= 5,
    ensures
        s == roll_sum(rolls@),
{
    let mut s: u32 = 0;
    let n = rolls.len();
    let mut k: usize = 0;
    while k < n
        invariant
            k <= n,
            n == rolls@.len(),
            n <= 8,
            forall|i: int| 0 <= i < rolls@.len() ==> 1 <= #[trigger] rolls@[i] <= 5,
            s == roll_sum(rolls@.subrange(0, k as int)),
            s <= 5 * k,
        decreases n - k,
    {
        proof {
            assert(rolls@.subrange(0, k + 1).drop_last() =~= rolls@.subrange(0, k as int));
        }
        s = s + rolls[k];
        k = k + 1;
    }
    proof {
        assert(rolls@.subrange(0, n as int) =~= rolls@);
    }
    s
}

impl Board {
    /// Replaces the owner and force count of territory `k`, keeping its
    /// connections.
    fn put_territory(&mut self, k: usize, owner: usize, dice: u32)
        requires
            k < old(self).spec_territories().len(),
        ensures
            final(self).spec_turn() == old(self).spec_turn(),
            final(self).spec_order() == old(self).spec_order(),
            final(self).spec_players() == old(self).spec_players(),
            final(self).spec_territories() == old(self).spec_territories().update(
                k as int,
                Territory {
                    owner,
                    dice,
                    connections: old(self).spec_territories()[k as int].connections,
                },
            ),
    {
        let t = &mut self.territories[k];
        t.owner = owner;
        t.dice = dice;
        proof {
            assert(self.territories@ =~= old(self).territories@.update(
                k as int,
                Territory {
                    owner,
                    dice,
                    connections: old(self).territories@[k as int].connections,
                },
            ));
        }
    }

    /// Resolves one attack of `first` on `second`, fed the dice rolls: each
    /// side's rolls are summed, and the attacker wins exactly when its total
    /// is strictly greater.  On a win the defender passes to the attacker's
    /// owner with the attacker's forces less one; in every case the attacker
    /// is left with a single die; a defender that holds wins ties and is
    /// unchanged.
    pub fn make_move_with_rolls(
        &mut self,
        first: usize,
        second: usize,
        first_rolls: &Vec<u32>,
        second_rolls: &Vec<u32>,
    )
        requires
            old(self).wf(),
            first < old(self).spec_territories().len(),
            second < old(self).spec_territories().len(),
            first != second,
            old(self).spec_territories()[first as int].dice >= 2,
            first_rolls@.len() == old(self).spec_territories()[first as int].dice,
            second_rolls@.len() == old(self).spec_territories()[second as int].dice,
            forall|i: int| 0 <= i < first_rolls@.len() ==> 1 <= #[trigger] first_rolls@[i] <= 5,
            forall|i: int| 0 <= i < second_rolls@.len() ==> 1 <= #[trigger] second_rolls@[i] <= 5,
        ensures
            final(self).wf(),
            final(self).spec_turn() == old(self).spec_turn(),
            final(self).spec_order() == old(self).spec_order(),
            final(self).spec_players() == old(self).spec_players(),
            final(self).spec_territories().len() == old(self).spec_territories().len(),
            forall|k: int|
                0 <= k < old(self).spec_territories().len() && k != first && k != second
                    ==> final(self).spec_territories()[k] == old(self).spec_territories()[k],
            ({
                let ts0 = old(self).spec_territories();
                let ts1 = final(self).spec_territories();
                if roll_sum(first_rolls@) > roll_sum(second_rolls@) {
                    &&& ts1[second as int].owner == ts0[first as int].owner
                    &&& ts1[second as int].dice == ts0[first as int].dice - 1
                    &&& ts1[second as int].connections == ts0[second as int].connections
                    &&& ts1[first as int].owner == ts0[first as int].owner
                    &&& ts1[first as int].dice == 1
                    &&& ts1[first as int].connections == ts0[first as int].connections
                } else {
                    &&& ts1[second as int] == ts0[second as int]
                    &&& ts1[first as int].owner == ts0[first as int].owner
                    &&& ts1[first as int].dice == 1
                    &&& ts1[first as int].connections == ts0[first as int].connections
                }
            }),
    {
        let first_total = sum_rolls(first_rolls);
        let second_total = sum_rolls(second_rolls);
        if first_total > second_total {
            let att_owner = self.territories[first].owner;
            let att_dice = self.territories[first].dice;
            self.put_territory(second, att_owner, att_dice - 1);
            self.put_territory(first, att_owner, 1);
        } else {
            let att_owner = self.territories[first].owner;
            self.put_territory(first, att_owner, 1);
        }
        proof {
            let ts0 = old(self).spec_territories();
            let ts1 = self.spec_territories();
            assert forall|k: int| 0 <= k < ts1.len() implies (#[trigger] ts1[k]).owner
                < self.spec_players() && ts1[k].dice <= 8 by {
                if k != first && k != second {
                    assert(ts1[k] == ts0[k]);
                }
            }
            assert forall|k: int, j: int|
                0 <= k < ts1.len() && 0 <= j < ts1[k].connections@.len() implies (
            #[trigger] ts1[k].connections@[j]) < ts1.len() && ts1[k].connections@[j] != k by {
                if k != first && k != second {
                    assert(ts1[k] == ts0[k]);
                } else {
                    assert(ts1[k].connections == ts0[k].connections);
                }
            }
        }
    }

    /// Resolves one attack of `first` on `second` with freshly rolled dice:
    /// one roll of one to five pips for each die on either side.  Whatever
    /// the rolls, the outcome has one of the two shapes of
    /// `make_move_with_rolls`.
    pub fn make_move(&mut self, first: usize, second: usize)
        requires
            old(self).wf(),
            old(self).spec_order().len() > 0,
            first < old(self).spec_territories().len(),
            second < old(self).spec_territories().len(),
            first != second,
            old(self).spec_territories()[first as int].owner == old(self).spec_order()[old(
                self,
            ).spec_turn()],
            old(self).spec_territories()[first as int].dice > 1,
            old(self).spec_territories()[first as int].connections@.contains(second),
            old(self).spec_territories()[second as int].owner != old(
                self,
            ).spec_territories()[first as int].owner,
        ensures
            final(self).wf(),
            final(self).spec_turn() == old(self).spec_turn(),
            final(self).spec_order() == old(self).spec_order(),
            final(self).spec_players() == old(self).spec_players(),
            final(self).spec_territories().len() == old(self).spec_territories().len(),
            forall|k: int|
                0 <= k < old(self).spec_territories().len() && k != first && k != second
                    ==> final(self).spec_territories()[k] == old(self).spec_territories()[k],
            ({
                let ts0 = old(self).spec_territories();
                let ts1 = final(self).spec_territories();
                ||| {
                    &&& ts1[second as int].owner == ts0[first as int].owner
                    &&& ts1[second as int].dice == ts0[first as int].dice - 1
                    &&& ts1[second as int].connections == ts0[second as int].connections
                    &&& ts1[first as int].owner == ts0[first as int].owner
                    &&& ts1[first as int].dice == 1
                    &&& ts1[first as int].connections == ts0[first as int].connections
                }
                ||| {
                    &&& ts1[second as int] == ts0[second as int]
                    &&& ts1[first as int].owner == ts0[first as int].owner
                    &&& ts1[first as int].dice == 1
                    &&& ts1[first as int].connections == ts0[first as int].connections
                }
            }),
    {
        let first_rolls = roll_dice(self.territories[first].dice);
        let second_rolls = roll_dice(self.territories[second].dice);
        self.make_move_with_rolls(first, second, &first_rolls, &second_rolls);
    }
}

/// Rolls `n` dice of one to five pips each.
fn roll_dice(n: u32) -> (rolls: Vec<u32>)
    ensures
        rolls@.len() == n,
        forall|i: int| 0 <= i < rolls@.len() ==> 1 <= #[trigger] rolls@[i] <= 5,
{
    let mut rolls: Vec<u32> = Vec::new();
    let mut c: u32 = 0;
    while c < n
        invariant
            rolls@.len() == c,
            c <= n,
            forall|i: int| 0 <= i < rolls@.len() ==> 1 <= #[trigger] rolls@[i] <= 5,
        decreases n - c,
    {
        let x = rand_below(5);
        rolls.push((x as u32) + 1);
        c = c + 1;
    }
    rolls
}


/// Total force owned by player `p` across `ts`.
pub open spec fn dice_sum_of(ts: Seq<Territory>, p: int) -> int
    decreases ts.len(),
{
    if ts.len() == 0 {
        0
    } else {
        dice_sum_of(ts.drop_last(), p) + (if ts.last().owner == p {
            ts.last().dice as int
        } else {
            0int
        })
    }
}

/// Replacing one territory changes an owner's force total in the evident
/// way.
pub proof fn lemma_dice_sum_update(ts: Seq<Territory>, k: int, t: Territory, p: int)
    requires
        0 <= k < ts.len(),
    ensures
        dice_sum_of(ts.update(k, t), p) == dice_sum_of(ts, p) - (if ts[k].owner == p {
            ts[k].dice as int
        } else {
            0int
        }) + (if t.owner == p {
            t.dice as int
        } else {
            0int
        }),
    decreases ts.len(),
{
    if k == ts.len() - 1 {
        assert(ts.update(k, t).drop_last() =~= ts.drop_last());
    } else {
        assert(ts.update(k, t).drop_last() =~= ts.drop_last().update(k, t));
        lemma_dice_sum_update(ts.drop_last(), k, t, p);
    }
}

/// Ownership counts depend on the owners alone.
pub proof fn lemma_count_owned_congruent(ts1: Seq<Territory>, ts2: Seq<Territory>, p: int)
    requires
        ts1.len() == ts2.len(),
        forall|k: int| 0 <= k < ts1.len() ==> (#[trigger] ts1[k]).owner == ts2[k].owner,
    ensures
        count_owned(ts1, p) == count_owned(ts2, p),
    decreases ts1.len(),
{
    if ts1.len() > 0 {
        lemma_count_owned_congruent(ts1.drop_last(), ts2.drop_last(), p);
    }
}

/// The turn order with the players that own nothing in `ts` struck out.
pub open spec fn surviving_order(order: Seq<usize>, ts: Seq<Territory>) -> Seq<usize>
    decreases order.len(),
{
    if order.len() == 0 {
        Seq::empty()
    } else {
        surviving_order(order.drop_last(), ts) + (if count_owned(ts, order.last() as int) > 0 {
            seq![order.last()]
        } else {
            Seq::empty()
        })
    }
}

/// How many of the first `n` entries of the turn order own nothing in `ts`.
pub open spec fn num_eliminated_upto(order: Seq<usize>, ts: Seq<Territory>, n: int) -> nat
    decreases n,
{
    if n <= 0 {
        0
    } else {
        num_eliminated_upto(order, ts, n - 1) + (if 0 <= n - 1 < order.len() && count_owned(
            ts,
            order[n - 1] as int,
        ) == 0 {
            1nat
        } else {
            0nat
        })
    }
}

/// The surviving order keeps only entries of the original order, and keeps
/// them distinct.
pub proof fn lemma_surviving_order_wf(order: Seq<usize>, ts: Seq<Territory>)
    ensures
        forall|x: usize| #[trigger] surviving_order(order, ts).contains(x) ==> order.contains(x),
        order.no_duplicates() ==> surviving_order(order, ts).no_duplicates(),
    decreases order.len(),
{
    if order.len() > 0 {
        lemma_surviving_order_wf(order.drop_last(), ts);
        let pre = surviving_order(order.drop_last(), ts);
        let cur = surviving_order(order, ts);
        assert forall|x: usize| #[trigger] cur.contains(x) implies order.contains(x) by {
            let i = choose|i: int| 0 <= i < cur.len() && cur[i] == x;
            if i < pre.len() {
                assert(pre.contains(x));
                let j = choose|j: int| 0 <= j < order.drop_last().len() && order.drop_last()[j]
                    == x;
                assert(order[j] == x);
            } else {
                assert(x == order.last());
                assert(order[order.len() - 1] == x);
            }
        }
        if order.no_duplicates() {
            assert(order.drop_last().no_duplicates()) by {
                assert forall|a: int, b: int|
                    0 <= a < b < order.drop_last().len() implies order.drop_last()[a]
                    != order.drop_last()[b] by {
                    assert(order[a] == order.drop_last()[a] && order[b] == order.drop_last()[b]);
                }
            }
            if count_owned(ts, order.last() as int) > 0 {
                assert(!pre.contains(order.last())) by {
                    if pre.contains(order.last()) {
                        assert(order.drop_last().contains(order.last()));
                        let j = choose|j: int|
                            0 <= j < order.drop_last().len() && order.drop_last()[j]
                                == order.last();
                        assert(order[j] == order[order.len() - 1]);
                    }
                }
                assert forall|a: int, b: int| 0 <= a < b < cur.len() implies cur[a] != cur[b] by {
                    if b < pre.len() {
                    } else {
                        assert(cur[b] == order.last());
                        assert(pre.contains(cur[a]));
                    }
                }
            }
        }
    }
}

impl Board {
    /// Ends the current player's turn: the player is reinforced with as many
    /// new dice as it owns territories, spent one at a time on its own
    /// territories below the cap of 8 until the pool or the candidates run
    /// out; then every player left with no territory is struck from the turn
    /// order, the turn pointer is pulled back one step for each removed
    /// player that stood at or before it, and finally the pointer advances
    /// to the next surviving player, wrapping to the front.
    pub fn finish_turn(&mut self)
        requires
            old(self).wf(),
            old(self).spec_order().len() > 0,
        ensures
            final(self).wf(),
            final(self).spec_players() == old(self).spec_players(),
            final(self).spec_territories().len() == old(self).spec_territories().len(),
            forall|k: int|
                0 <= k < old(self).spec_territories().len() ==> (
                #[trigger] final(self).spec_territories()[k]).owner
                    == old(self).spec_territories()[k].owner
                    && final(self).spec_territories()[k].connections
                    == old(self).spec_territories()[k].connections,
            ({
                let ts0 = old(self).spec_territories();
                let ts1 = final(self).spec_territories();
                let cur = old(self).spec_order()[old(self).spec_turn()] as int;
                &&& forall|k: int| 0 <= k < ts0.len() && (#[trigger] ts0[k]).owner != cur ==> ts1[k] == ts0[k]
                &&& forall|k: int|
                    0 <= k < ts0.len() && (#[trigger] ts0[k]).owner == cur ==> ts0[k].dice
                        <= ts1[k].dice <= 8
                &&& dice_sum_of(ts0, cur) <= dice_sum_of(ts1, cur) <= dice_sum_of(ts0, cur)
                    + count_owned(ts0, cur)
                &&& (dice_sum_of(ts1, cur) == dice_sum_of(ts0, cur) + count_owned(ts0, cur) || (
                forall|k: int| 0 <= k < ts1.len() && (#[trigger] ts1[k]).owner == cur ==> ts1[k].dice == 8))
            }),
            final(self).spec_order() == surviving_order(
                old(self).spec_order(),
                final(self).spec_territories(),
            ),
            final(self).spec_turn() == ({
                let ts1 = final(self).spec_territories();
                let removed = num_eliminated_upto(
                    old(self).spec_order(),
                    ts1,
                    old(self).spec_turn() + 1,
                );
                let nxt: int = old(self).spec_turn() + 1 - removed;
                if nxt >= surviving_order(old(self).spec_order(), ts1).len() {
                    0int
                } else {
                    nxt
                }
            }),
    {
        let ghost ts0 = self.spec_territories();
        let n = self.territories.len();
        let counts = self.count_territories();
        let player = self.player_order[self.turn];
        let score: u32 = counts[player];

        // gather the reinforcement candidates: owned territories below the cap
        let mut cands: Vec<usize> = Vec::new();
        let mut k: usize = 0;
        while k < n
            invariant
                self.wf(),
                k <= n,
                n == self.spec_territories().len(),
                player < self.spec_players(),
                forall|j: int|
                    0 <= j < cands@.len() ==> (#[trigger] cands@[j]) < n
                        && self.spec_territories()[cands@[j] as int].owner == player,
                forall|t: int|
                    0 <= t < k && (#[trigger] self.spec_territories()[t]).owner == player
                        && self.spec_territories()[t].dice < 8 ==> cands@.contains(t as usize),
            decreases n - k,
        {
            let ghost pre_c = cands@;
            if self.territories[k].owner == player && self.territories[k].dice < 8 {
                cands.push(k);
            }
            proof {
                assert forall|t: int|
                    0 <= t < k + 1 && (#[trigger] self.spec_territories()[t]).owner == player
                        && self.spec_territories()[t].dice < 8 implies cands@.contains(
                    t as usize,
                ) by {
                    if t < k {
                        assert(pre_c.contains(t as usize));
                        let j = choose|j: int| 0 <= j < pre_c.len() && pre_c[j] == t as usize;
                        assert(cands@[j] == t as usize);
                    } else {
                        assert(cands@[cands@.len() - 1] == t as usize);
                    }
                }
            }
            k = k + 1;
        }

        // spend the pool one die at a time on random candidates
        let mut dice_left: u32 = score;
        while dice_left > 0 && cands.len() > 0
            invariant
                self.wf(),
                self.spec_turn() == old(self).spec_turn(),
                self.spec_order() == old(self).spec_order(),
                self.spec_players() == old(self).spec_players(),
                n == self.spec_territories().len(),
                n == ts0.len(),
                player < self.spec_players(),
                player as int == old(self).spec_order()[old(self).spec_turn()] as int,
                score == count_owned(ts0, player as int),
                forall|k: int|
                    0 <= k < n ==> (#[trigger] self.spec_territories()[k]).owner == ts0[k].owner
                        && self.spec_territories()[k].connections == ts0[k].connections,
                forall|k: int|
                    0 <= k < n && (#[trigger] ts0[k]).owner != player ==> self.spec_territories()[k]
                        == ts0[k],
                forall|k: int|
                    0 <= k < n ==> (#[trigger] self.spec_territories()[k]).dice >= ts0[k].dice,
                forall|j: int|
                    0 <= j < cands@.len() ==> (#[trigger] cands@[j]) < n
                        && self.spec_territories()[cands@[j] as int].owner == player,
                forall|t: int|
                    0 <= t < n && (#[trigger] self.spec_territories()[t]).owner == player
                        && self.spec_territories()[t].dice < 8 ==> cands@.contains(t as usize),
                dice_left <= score,
                dice_sum_of(self.spec_territories(), player as int) == dice_sum_of(
                    ts0,
                    player as int,
                ) + score - dice_left,
            decreases dice_left + cands@.len(),
        {
            let ix = rand_below(cands.len());
            let t = cands[ix];
            if self.territories[t].dice < 8 {
                let d = self.territories[t].dice;
                let o = self.territories[t].owner;
                let ghost pre = self.spec_territories();
                self.put_territory(t, o, d + 1);
                dice_left = dice_left - 1;
                proof {
                    let post = self.spec_territories();
                    let tt = Territory { owner: o, dice: (d + 1) as u32, connections: pre[t as int].connections };
                    lemma_dice_sum_update(pre, t as int, tt, player as int);
                    assert forall|k: int| 0 <= k < n implies (
                    #[trigger] post[k]).owner == ts0[k].owner && post[k].connections
                        == ts0[k].connections && post[k].dice >= ts0[k].dice by {
                        if k != t {
                            assert(post[k] == pre[k]);
                        }
                    }
                    assert forall|k: int| 0 <= k < n && (#[trigger] ts0[k]).owner
                        != player implies post[k] == ts0[k] by {
                        if k != t {
                            assert(post[k] == pre[k]);
                        }
                    }
                    assert forall|k: int| 0 <= k < n implies (#[trigger] post[k]).owner
                        < self.spec_players() && post[k].dice <= 8 by {
                        if k != t {
                            assert(post[k] == pre[k]);
                        }
                    }
                    assert forall|k: int, j: int|
                        0 <= k < n && 0 <= j < post[k].connections@.len() implies (
                    #[trigger] post[k].connections@[j]) < n && post[k].connections@[j] != k by {
                        if k != t {
                            assert(post[k] == pre[k]);
                        } else {
                            assert(post[k].connections == pre[k].connections);
                        }
                    }
                    assert forall|tk: int|
                        0 <= tk < n && (#[trigger] post[tk]).owner == player && post[tk].dice
                            < 8 implies cands@.contains(tk as usize) by {
                        if tk != t {
                            assert(pre[tk] == post[tk]);
                        } else {
                            assert(cands@[ix as int] == t);
                        }
                    }
                }
            } else {
                let ghost pre_c = cands@;
                cands.swap_remove(ix);
                proof {
                    assert forall|tk: int|
                        0 <= tk < n && (#[trigger] self.spec_territories()[tk]).owner == player
                            && self.spec_territories()[tk].dice < 8 implies cands@.contains(
                        tk as usize,
                    ) by {
                        assert(pre_c.contains(tk as usize));
                        let j = choose|j: int| 0 <= j < pre_c.len() && pre_c[j] == tk as usize;
                        assert(tk != t);
                        if j < pre_c.len() - 1 {
                            if j == ix {
                                assert(cands@[j] == pre_c[pre_c.len() - 1]);
                                assert(pre_c[j] == tk as usize);
                                assert(false);
                            } else {
                                assert(cands@[j] == pre_c[j]);
                            }
                        } else {
                            if ix < pre_c.len() - 1 {
                                assert(cands@[ix as int] == pre_c[pre_c.len() - 1]);
                            } else {
                                assert(pre_c[j] == pre_c[ix as int]);
                                assert(false);
                            }
                        }
                    }
                }
            }
        }
        proof {
            if cands@.len() == 0 {
                assert forall|k: int|
                    0 <= k < n && (#[trigger] self.spec_territories()[k]).owner
                        == player implies self.spec_territories()[k].dice == 8 by {
                    if self.spec_territories()[k].dice < 8 {
                        assert(cands@.contains(k as usize));
                    }
                }
            }
        }

        // strike out the players that own nothing, adjusting the pointer
        let ghost ts1 = self.spec_territories();
        proof {
            assert forall|p: int| 0 <= p < counts@.len() implies #[trigger] counts@[p]
                == count_owned(ts1, p) by {
                lemma_count_owned_congruent(ts0, ts1, p);
            }
        }
        let order_len = self.player_order.len();
        let ghost order0 = self.spec_order();
        let mut new_order: Vec<usize> = Vec::new();
        let mut removed_before: usize = 0;
        let mut i: usize = 0;
        while i < order_len
            invariant
                self.wf(),
                i <= order_len,
                order_len == order0.len(),
                order0 == self.spec_order(),
                ts1 == self.spec_territories(),
                self.spec_turn() == old(self).spec_turn(),
                self.spec_turn() < order_len,
                counts@.len() == self.spec_players(),
                forall|p: int| 0 <= p < counts@.len() ==> #[trigger] counts@[p] == count_owned(ts1, p),
                new_order@ == surviving_order(order0.subrange(0, i as int), ts1),
                removed_before == num_eliminated_upto(
                    order0,
                    ts1,
                    if i <= old(self).spec_turn() + 1 {
                        i as int
                    } else {
                        old(self).spec_turn() + 1
                    },
                ),
                removed_before <= i,
                removed_before <= old(self).spec_turn() + 1,
            decreases order_len - i,
        {
            let ghost pre = order0.subrange(0, i as int);
            let ghost cur = order0.subrange(0, i + 1);
            proof {
                assert(cur.drop_last() =~= pre);
                assert(cur.last() == order0[i as int]);
            }
            let p = self.player_order[i];
            if counts[p] > 0 {
                new_order.push(p);
            } else {
                if i <= self.turn {
                    removed_before = removed_before + 1;
                }
            }
            proof {
                assert(new_order@ =~= surviving_order(cur, ts1));
            }
            i = i + 1;
        }
        proof {
            assert(order0.subrange(0, order_len as int) =~= order0);
        }
        let new_len = new_order.len();
        self.player_order = new_order;
        // one pull-back per removal at or before the pointer, then advance:
        // the same logical next player moves next
        let nxt: usize = self.turn + 1 - removed_before;
        self.turn = if nxt >= new_len {
            0
        } else {
            nxt
        };
        proof {
            lemma_surviving_order_wf(order0, ts1);
            assert forall|j: int| 0 <= j < self.spec_order().len() implies (
            #[trigger] self.spec_order()[j]) < self.spec_players() by {
                assert(self.spec_order().contains(self.spec_order()[j]));
                assert(order0.contains(self.spec_order()[j]));
                let a = choose|a: int| 0 <= a < order0.len() && order0[a] == self.spec_order()[j];
            }
        }
    }
}


/// Query idempotence: reading the turn pointer and score list, or one
/// territory's owner, twice from the same board state gives identical
/// results.
pub proof fn lemma_queries_deterministic(
    b: Board,
    t: int,
    r1: Seq<(usize, u32)>,
    r2: Seq<(usize, u32)>,
    o1: usize,
    o2: usize,
)
    requires
        r1 == b.spec_scores(),
        r2 == b.spec_scores(),
        0 <= t < b.spec_territories().len(),
        o1 == b.spec_territories()[t].owner,
        o2 == b.spec_territories()[t].owner,
    ensures
        r1 == r2,
        o1 == o2,
{
}

} // verus!
