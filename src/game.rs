use vstd::prelude::*;
use crate::direction::{adjacent, as_cell, step, step_from, Direction};
use crate::grid::{grid, lemma_cells_bounded};

verus! {

/// What the core reports to its caller instead of acting.
#[derive(Clone, Copy, Debug, PartialEq, Eq)]
pub enum CoreError {
    /// A position lies outside the board.
    InvalidCoordinate,
    /// A death names a player that is not on the board.
    UnknownPlayer,
    /// A move was asked for while the own player has no head on the board.
    SelectorInvokedWhileIdle,
}

/// The board, the registry of heads and the identity of the own player.
///
/// `map[y][x]` holds the player whose trail occupies column `x` of row `y`;
/// `heads` lists each live player once, with its current head.
pub struct GameState {
    id: usize,
    width: usize,
    height: usize,
    map: Vec<Vec<Option<usize>>>,
    heads: Vec<(usize, (usize, usize))>,
}

impl GameState {
    /// The own player.
    pub closed spec fn me(self) -> usize {
        self.id
    }

    /// Number of columns.
    pub closed spec fn cols(self) -> int {
        self.width as int
    }

    /// Number of rows.
    pub closed spec fn rows(self) -> int {
        self.height as int
    }

    /// The player whose trail occupies cell `c` (column, row), if any.
    pub closed spec fn cell(self, c: (int, int)) -> Option<usize> {
        self.map@[c.1]@[c.0]
    }

    spec fn has_slot(self, p: usize) -> bool {
        exists|j: int| 0 <= j < self.heads@.len() && self.heads@[j].0 == p
    }

    spec fn slot(self, p: usize) -> int {
        choose|j: int| 0 <= j < self.heads@.len() && self.heads@[j].0 == p
    }

    /// The head of each live player.
    pub closed spec fn registry(self) -> Map<usize, (usize, usize)> {
        Map::new(|p: usize| self.has_slot(p), |p: usize| self.heads@[self.slot(p)].1)
    }

    /// The board has the stated size and fits in memory, each player is
    /// listed once with a head on the board, and each trail belongs to a
    /// listed player.
    pub closed spec fn wf(self) -> bool {
        &&& self.map@.len() == self.height
        &&& forall|y: int| 0 <= y < self.height ==> (#[trigger] self.map@[y])@.len() == self.width
        &&& self.width * self.height <= usize::MAX
        &&& self.keys_unique()
        &&& forall|j: int|
            0 <= j < self.heads@.len() ==> (#[trigger] self.heads@[j]).1.0 < self.width
                && self.heads@[j].1.1 < self.height
        &&& forall|c: (int, int)|
            self.in_bounds(c) && (#[trigger] self.cell(c)) is Some ==> self.registry().contains_key(
                self.cell(c)->0,
            )
    }

    /// `c` is a cell of the board.
    pub open spec fn in_bounds(self, c: (int, int)) -> bool {
        0 <= c.0 < self.cols() && 0 <= c.1 < self.rows()
    }

    /// The cell one move from `c` in direction `d`, wrapping at the edges.
    pub open spec fn neighbor(self, c: (int, int), d: Direction) -> (int, int) {
        step(c, d, self.cols(), self.rows())
    }

    spec fn keys_unique(self) -> bool {
        forall|i: int, j: int|
            0 <= i < j < self.heads@.len() ==> (#[trigger] self.heads@[i]).0 != (
            #[trigger] self.heads@[j]).0
    }

    proof fn lemma_slot(self, j: int)
        requires
            self.keys_unique(),
            0 <= j < self.heads@.len(),
        ensures
            self.has_slot(self.heads@[j].0),
            self.slot(self.heads@[j].0) == j,
            self.registry().contains_key(self.heads@[j].0),
            self.registry()[self.heads@[j].0] == self.heads@[j].1,
    {
        let p = self.heads@[j].0;
        assert(self.has_slot(p));
        let k = self.slot(p);
        assert(self.heads@[k].0 == p);
        if k < j {
            assert(self.heads@[k].0 != self.heads@[j].0);
        } else if j < k {
            assert(self.heads@[j].0 != self.heads@[k].0);
        }
    }

    fn find_slot(&self, p: usize) -> (r: Option<usize>)
        ensures
            r is None <==> !self.registry().contains_key(p),
            r matches Some(j) ==> j < self.heads@.len() && self.heads@[j as int].0 == p,
    {
        let mut j: usize = 0;
        while j < self.heads.len()
            invariant
                j <= self.heads@.len(),
                forall|k: int| 0 <= k < j ==> self.heads@[k].0 != p,
            decreases self.heads@.len() - j,
        {
            if self.heads[j].0 == p {
                return Some(j);
            }
            j = j + 1;
        }
        None
    }

    /// A new game on an empty `width` by `height` board, with no player placed.
    pub fn new(id: usize, width: usize, height: usize) -> (r: GameState)
        requires
            width * height <= usize::MAX,
        ensures
            r.wf(),
            r.me() == id,
            r.cols() == width,
            r.rows() == height,
            forall|c: (int, int)| r.in_bounds(c) ==> r.cell(c) is None,
            r.registry() == Map::<usize, (usize, usize)>::empty(),
    {
        let mut map: Vec<Vec<Option<usize>>> = Vec::new();
        while map.len() < height
            invariant
                map@.len() <= height,
                forall|y: int| 0 <= y < map@.len() ==> (#[trigger] map@[y])@.len() == width,
                forall|y: int, x: int|
                    0 <= y < map@.len() && 0 <= x < width ==> (#[trigger] map@[y]@[x]) is None,
            decreases height - map@.len(),
        {
            let mut line: Vec<Option<usize>> = Vec::new();
            while line.len() < width
                invariant
                    line@.len() <= width,
                    forall|x: int| 0 <= x < line@.len() ==> (#[trigger] line@[x]) is None,
                decreases width - line@.len(),
            {
                line.push(None);
            }
            map.push(line);
        }
        let r = GameState { id, width, height, map, heads: Vec::new() };
        assert(r.registry() =~= Map::<usize, (usize, usize)>::empty());
        r
    }

    /// Records that player `id` moved to `(x, y)`: the cell becomes part of its
    /// trail and its head moves there. A position off the board is rejected
    /// and changes nothing.
    pub fn update_pos(&mut self, id: usize, x: usize, y: usize) -> (r: Result<(), CoreError>)
        requires
            old(self).wf(),
        ensures
            final(self).wf(),
            final(self).me() == old(self).me(),
            final(self).cols() == old(self).cols(),
            final(self).rows() == old(self).rows(),
            !old(self).in_bounds((x as int, y as int)) ==> r == Err::<(), CoreError>(
                CoreError::InvalidCoordinate,
            ) && *final(self) == *old(self),
            old(self).in_bounds((x as int, y as int)) ==> {
                &&& r is Ok
                &&& final(self).registry() == old(self).registry().insert(id, (x, y))
                &&& forall|c: (int, int)|
                    final(self).in_bounds(c) ==> final(self).cell(c) == if c == (x as int, y as int) {
                        Some(id)
                    } else {
                        old(self).cell(c)
                    }
            },
    {
        if x >= self.width || y >= self.height {
            return Err(CoreError::InvalidCoordinate);
        }
        let ghost before = *self;
        let slot = self.find_slot(id);
        self.map[y].set(x, Some(id));
        match slot {
            Some(j) => {
                self.heads.set(j, (id, (x, y)));
            },
            None => {
                self.heads.push((id, (x, y)));
            },
        }
        proof {
            let after = *self;
            let entry = (id, (x, y));
            assert forall|k: int| 0 <= k < after.heads@.len() implies (#[trigger] after.heads@[k])
                == if k < before.heads@.len() && before.heads@[k].0 != id {
                before.heads@[k]
            } else {
                entry
            } by {
                if k < before.heads@.len() && slot.is_some() && k == slot.unwrap() {
                    assert(before.heads@[k].0 == id);
                }
            }
            assert forall|i: int, k: int|
                0 <= i < k < after.heads@.len() implies (#[trigger] after.heads@[i]).0 != (
            #[trigger] after.heads@[k]).0 by {
                if k >= before.heads@.len() {
                    if before.heads@[i].0 == id {
                        before.lemma_slot(i);
                    }
                }
            }
            assert(after.keys_unique());
            assert forall|p: usize| #[trigger]
                after.registry().contains_key(p) == before.registry().insert(
                    id,
                    (x, y),
                ).contains_key(p) && (after.registry().contains_key(p) ==> after.registry()[p]
                    == before.registry().insert(id, (x, y))[p]) by {
                if after.has_slot(p) {
                    let k = after.slot(p);
                    assert(after.heads@[k].0 == p);
                    if p != id {
                        assert(k < before.heads@.len() && before.heads@[k].0 != id);
                        assert(after.heads@[k] == before.heads@[k]);
                        before.lemma_slot(k);
                    } else {
                        assert(after.heads@[k] == entry);
                    }
                }
                if p != id && before.has_slot(p) {
                    let k = before.slot(p);
                    before.lemma_slot(k);
                    assert(after.heads@[k] == before.heads@[k]);
                    assert(after.has_slot(p));
                    after.lemma_slot(k);
                }
                if p == id {
                    if slot.is_some() {
                        after.lemma_slot(slot.unwrap() as int);
                    } else {
                        after.lemma_slot(before.heads@.len() as int);
                    }
                }
            }
            assert(after.registry() =~= before.registry().insert(id, (x, y)));
            assert forall|c: (int, int)|
                after.in_bounds(c) && (#[trigger] after.cell(c)) is Some implies after.registry().contains_key(
                after.cell(c)->0,
            ) by {
                if c != (x as int, y as int) {
                    assert(before.cell(c) == after.cell(c));
                    assert(before.registry().contains_key(before.cell(c)->0));
                }
            }
            assert(after.wf());
        }
        Ok(())
    }

    /// Records that player `id` was eliminated: every cell of its trail is
    /// cleared and it leaves the registry. A player that is not listed is
    /// reported and changes nothing.
    pub fn player_died(&mut self, id: usize) -> (r: Result<(), CoreError>)
        requires
            old(self).wf(),
        ensures
            final(self).wf(),
            final(self).me() == old(self).me(),
            final(self).cols() == old(self).cols(),
            final(self).rows() == old(self).rows(),
            !old(self).registry().contains_key(id) ==> r == Err::<(), CoreError>(
                CoreError::UnknownPlayer,
            ) && *final(self) == *old(self),
            old(self).registry().contains_key(id) ==> {
                &&& r is Ok
                &&& final(self).registry() == old(self).registry().remove(id)
                &&& forall|c: (int, int)|
                    final(self).in_bounds(c) ==> final(self).cell(c) == if old(self).cell(c) == Some(
                        id,
                    ) {
                        None
                    } else {
                        old(self).cell(c)
                    }
            },
    {
        let slot = self.find_slot(id);
        if slot.is_none() {
            return Err(CoreError::UnknownPlayer);
        }
        let j = slot.unwrap();
        let ghost before = *self;
        let mut y: usize = 0;
        while y < self.height
            invariant
                self.id == before.id,
                self.width == before.width,
                self.height == before.height,
                self.heads == before.heads,
                self.map@.len() == before.map@.len(),
                before.wf(),
                y <= self.height,
                forall|r: int| 0 <= r < self.height ==> (#[trigger] self.map@[r])@.len() == self.width,
                forall|c: (int, int)|
                    #![trigger self.cell(c)]
                    before.in_bounds(c) ==> self.cell(c) == if c.1 < y && before.cell(c) == Some(id) {
                        None
                    } else {
                        before.cell(c)
                    },
            decreases self.height - y,
        {
            let mut x: usize = 0;
            while x < self.width
                invariant
                    self.id == before.id,
                    self.width == before.width,
                    self.height == before.height,
                    self.heads == before.heads,
                    self.map@.len() == before.map@.len(),
                    before.wf(),
                    y < self.height,
                    x <= self.width,
                    forall|r: int|
                        0 <= r < self.height ==> (#[trigger] self.map@[r])@.len() == self.width,
                    forall|c: (int, int)|
                        #![trigger self.cell(c)]
                        before.in_bounds(c) ==> self.cell(c) == if (c.1 < y || (c.1 == y && c.0
                            < x)) && before.cell(c) == Some(id) {
                            None
                        } else {
                            before.cell(c)
                        },
                decreases self.width - x,
            {
                let ghost prev = *self;
                if self.map[y][x] == Some(id) {
                    self.map[y].set(x, None);
                }
                proof {
                    assert forall|c: (int, int)| before.in_bounds(c) implies #[trigger] self.cell(c)
                        == if (c.1 < y || (c.1 == y && c.0 < x + 1)) && before.cell(c) == Some(id) {
                        None
                    } else {
                        before.cell(c)
                    } by {
                        assert(prev.cell(c) == if (c.1 < y || (c.1 == y && c.0 < x))
                            && before.cell(c) == Some(id) {
                            None
                        } else {
                            before.cell(c)
                        });
                        if c.1 != y {
                            assert(self.map@[c.1] == prev.map@[c.1]);
                        }
                    }
                }
                x = x + 1;
            }
            y = y + 1;
        }
        let ghost cleared = *self;
        self.heads.remove(j);
        proof {
            let after = *self;
            assert(after.map == cleared.map);
            before.lemma_slot(j as int);
            assert forall|p: usize| #[trigger]
                after.registry().contains_key(p) == before.registry().remove(id).contains_key(p)
                    && (after.registry().contains_key(p) ==> after.registry()[p]
                    == before.registry()[p]) by {
                if after.has_slot(p) {
                    let k = after.slot(p);
                    let bk = if k < j { k } else { k + 1 };
                    assert(after.heads@[k] == before.heads@[bk]);
                    before.lemma_slot(bk);
                }
                if p != id && before.has_slot(p) {
                    let bk = before.slot(p);
                    before.lemma_slot(bk);
                    let k = if bk < j { bk } else { bk - 1 };
                    assert(after.heads@[k] == before.heads@[bk]);
                }
            }
            assert(after.registry() =~= before.registry().remove(id));
            assert forall|c: (int, int)| after.in_bounds(c) implies #[trigger] after.cell(c)
                == if before.cell(c) == Some(id) {
                None
            } else {
                before.cell(c)
            } by {
                assert(cleared.cell(c) == after.cell(c));
            }
            assert forall|c: (int, int)|
                after.in_bounds(c) && (#[trigger] after.cell(c)) is Some implies after.registry().contains_key(
                after.cell(c)->0,
            ) by {
                assert(cleared.cell(c) == after.cell(c));
                assert(before.registry().contains_key(before.cell(c)->0));
            }
            assert forall|i: int, k: int|
                0 <= i < k < after.heads@.len() implies (#[trigger] after.heads@[i]).0 != (
            #[trigger] after.heads@[k]).0 by {
                let bi = if i < j { i } else { i + 1 };
                let bk = if k < j { k } else { k + 1 };
                assert(after.heads@[i] == before.heads@[bi]);
                assert(after.heads@[k] == before.heads@[bk]);
            }
            assert forall|k: int| 0 <= k < after.heads@.len() implies (#[trigger] after.heads@[k]).1.0
                < after.width && after.heads@[k].1.1 < after.height by {
                let bk = if k < j { k } else { k + 1 };
                assert(after.heads@[k] == before.heads@[bk]);
            }
        }
        Ok(())
    }

    /// Some opponent (a live player other than the own one) has its head one
    /// move away from `c`.
    pub open spec fn near_opponent(self, c: (int, int)) -> bool {
        exists|p: usize|
            #![trigger self.registry()[p]]
            self.registry().contains_key(p) && p != self.me() && adjacent(
                as_cell(self.registry()[p]),
                c,
                self.cols(),
                self.rows(),
            )
    }

    /// Cell `c` may be entered: it is on the board, holds no trail, and, when
    /// `avoid` is set, is not next to an opponent's head.
    pub open spec fn passable(self, c: (int, int), avoid: bool) -> bool {
        &&& self.in_bounds(c)
        &&& self.cell(c) is None
        &&& !(avoid && self.near_opponent(c))
    }

    /// `w` is a walk of single moves through passable cells.
    pub open spec fn is_walk(self, w: Seq<(int, int)>, avoid: bool) -> bool {
        &&& w.len() > 0
        &&& forall|i: int| 0 <= i < w.len() ==> self.passable(#[trigger] w[i], avoid)
        &&& forall|i: int|
            0 <= i < w.len() - 1 ==> adjacent(#[trigger] w[i], w[i + 1], self.cols(), self.rows())
    }

    /// Some walk through passable cells leads from `s` to `c`.
    pub open spec fn connects(self, s: (int, int), c: (int, int), avoid: bool) -> bool {
        exists|w: Seq<(int, int)>| self.is_walk(w, avoid) && w[0] == s && w.last() == c
    }

    /// The cells that can be reached from `s` through passable cells, `s`
    /// included when it is passable itself.
    pub open spec fn region(self, s: (int, int), avoid: bool) -> Set<(int, int)> {
        Set::new(|c: (int, int)| self.connects(s, c, avoid))
    }

    /// Whether an opponent's head is one move away from `pos`, wrapping at
    /// the edges.
    pub fn neighboring_opponents(&self, pos: (usize, usize)) -> (r: bool)
        requires
            self.wf(),
            self.in_bounds(as_cell(pos)),
        ensures
            r == self.near_opponent(as_cell(pos)),
    {
        let mut j: usize = 0;
        while j < self.heads.len()
            invariant
                self.wf(),
                self.in_bounds(as_cell(pos)),
                j <= self.heads@.len(),
                forall|k: int|
                    0 <= k < j ==> (#[trigger] self.heads@[k]).0 == self.id || !adjacent(
                        as_cell(self.heads@[k].1),
                        as_cell(pos),
                        self.cols(),
                        self.rows(),
                    ),
            decreases self.heads@.len() - j,
        {
            let (p, (hx, hy)) = self.heads[j];
            if p != self.id {
                let up = step_from(hx, hy, Direction::Up, self.width, self.height);
                let down = step_from(hx, hy, Direction::Down, self.width, self.height);
                let left = step_from(hx, hy, Direction::Left, self.width, self.height);
                let right = step_from(hx, hy, Direction::Right, self.width, self.height);
                if same_cell(up, pos) || same_cell(down, pos) || same_cell(left, pos) || same_cell(right, pos) {
                    proof {
                        self.lemma_slot(j as int);
                        assert(self.registry()[p] == (hx, hy));
                    }
                    return true;
                }
            }
            j = j + 1;
        }
        proof {
            assert forall|p: usize|
                self.registry().contains_key(p) && p != self.me() implies !adjacent(
                as_cell(#[trigger] self.registry()[p]),
                as_cell(pos),
                self.cols(),
                self.rows(),
            ) by {
                let k = self.slot(p);
                self.lemma_slot(k);
                assert(self.heads@[k].0 == p);
            }
        }
        false
    }

    fn passable_at(&self, c: (usize, usize), avoid: bool) -> (r: bool)
        requires
            self.wf(),
            self.in_bounds(as_cell(c)),
        ensures
            r == self.passable(as_cell(c), avoid),
    {
        self.map[c.1][c.0].is_none() && !(avoid && self.neighboring_opponents(c))
    }
}

fn same_cell(a: (usize, usize), b: (usize, usize)) -> (r: bool)
    ensures
        r == (a == b),
{
    a.0 == b.0 && a.1 == b.1
}

/// The cells marked in `seen`, where `seen[y][x]` marks column `x` of row `y`.
pub open spec fn marked(seen: Seq<Vec<bool>>) -> Set<(int, int)> {
    Set::new(|c: (int, int)| 0 <= c.1 < seen.len() && 0 <= c.0 < seen[c.1]@.len() && seen[c.1]@[c.0])
}

impl GameState {
    spec fn fits(self, seen: Seq<Vec<bool>>) -> bool {
        &&& seen.len() == self.height
        &&& forall|y: int| 0 <= y < self.height ==> (#[trigger] seen[y])@.len() == self.width
    }

    /// Every passable neighbor of `c` lies in `s`.
    spec fn closed_at(self, c: (int, int), s: Set<(int, int)>, avoid: bool) -> bool {
        forall|d: Direction|
            self.passable(#[trigger] self.neighbor(c, d), avoid) ==> s.contains(self.neighbor(c, d))
    }

    proof fn lemma_marked_bounded(self, seen: Seq<Vec<bool>>)
        requires
            self.wf(),
            self.fits(seen),
        ensures
            marked(seen).finite(),
            marked(seen).len() <= self.width * self.height,
            marked(seen).subset_of(grid(self.cols(), self.rows())),
    {
        lemma_cells_bounded(marked(seen), self.cols(), self.rows());
    }

    fn blank_marks(&self) -> (r: Vec<Vec<bool>>)
        requires
            self.wf(),
        ensures
            self.fits(r@),
            marked(r@) == Set::<(int, int)>::empty(),
    {
        let mut seen: Vec<Vec<bool>> = Vec::new();
        while seen.len() < self.height
            invariant
                seen@.len() <= self.height,
                forall|y: int| 0 <= y < seen@.len() ==> (#[trigger] seen@[y])@.len() == self.width,
                forall|y: int, x: int|
                    0 <= y < seen@.len() && 0 <= x < self.width ==> !(#[trigger] seen@[y]@[x]),
            decreases self.height - seen@.len(),
        {
            let mut line: Vec<bool> = Vec::new();
            while line.len() < self.width
                invariant
                    line@.len() <= self.width,
                    forall|x: int| 0 <= x < line@.len() ==> !(#[trigger] line@[x]),
                decreases self.width - line@.len(),
            {
                line.push(false);
            }
            seen.push(line);
        }
        assert(marked(seen@) =~= Set::<(int, int)>::empty());
        seen
    }

    /// Marks `n` and pushes it on `stack` when it is passable and not yet marked.
    fn visit(
        &self,
        n: (usize, usize),
        avoid: bool,
        seen: &mut Vec<Vec<bool>>,
        stack: &mut Vec<(usize, usize)>,
        count: &mut usize,
    )
        requires
            self.wf(),
            self.in_bounds(as_cell(n)),
            self.fits(old(seen)@),
            *old(count) == marked(old(seen)@).len(),
        ensures
            self.fits(final(seen)@),
            *final(count) == marked(final(seen)@).len(),
            *final(count) == *old(count) + final(stack)@.len() - old(stack)@.len(),
            self.passable(as_cell(n), avoid) && !marked(old(seen)@).contains(as_cell(n)) ==> {
                &&& marked(final(seen)@) == marked(old(seen)@).insert(as_cell(n))
                &&& final(stack)@ == old(stack)@.push(n)
            },
            !(self.passable(as_cell(n), avoid) && !marked(old(seen)@).contains(as_cell(n))) ==> {
                &&& marked(final(seen)@) == marked(old(seen)@)
                &&& final(stack)@ == old(stack)@
            },
    {
        if !seen[n.1][n.0] && self.passable_at(n, avoid) {
            let ghost before = seen@;
            seen[n.1].set(n.0, true);
            proof {
                assert(marked(seen@) =~= marked(before).insert(as_cell(n)));
                self.lemma_marked_bounded(before);
                self.lemma_marked_bounded(seen@);
            }
            *count = *count + 1;
            stack.push(n);
        }
    }

    /// Number of cells reachable from `pos` through passable cells: cells
    /// without trail and, when `consider_neighbors` is set, not next to an
    /// opponent's head. `pos` counts when it is passable itself.
    pub fn reachable(&self, pos: (usize, usize), consider_neighbors: bool) -> (r: usize)
        requires
            self.wf(),
            self.in_bounds(as_cell(pos)),
        ensures
            self.region(as_cell(pos), consider_neighbors).finite(),
            r == self.region(as_cell(pos), consider_neighbors).len(),
    {
        let avoid = consider_neighbors;
        let ghost s = as_cell(pos);
        if !self.passable_at(pos, avoid) {
            proof {
                assert forall|c: (int, int)| !self.region(s, avoid).contains(c) by {
                    if self.connects(s, c, avoid) {
                        let w = choose|w: Seq<(int, int)>| self.is_walk(w, avoid) && w[0] == s && w.last() == c;
                        assert(self.passable(w[0], avoid));
                    }
                }
                assert(self.region(s, avoid) =~= Set::empty());
            }
            return 0;
        }
        let mut seen = self.blank_marks();
        let mut stack: Vec<(usize, usize)> = Vec::new();
        let mut count: usize = 0;
        self.visit(pos, avoid, &mut seen, &mut stack, &mut count);
        proof {
            let w = seq![s];
            assert(self.is_walk(w, avoid) && w[0] == s && w.last() == s);
            assert forall|c: (int, int)| #[trigger] marked(seen@).contains(c) implies self.connects(s, c, avoid)
                && exists|k: int| 0 <= k < stack@.len() && as_cell(stack@[k]) == c by {
                assert(c == s);
                assert(as_cell(stack@[0]) == c);
            }
        }
        while stack.len() > 0
            invariant
                self.wf(),
                self.in_bounds(s),
                s == as_cell(pos),
                self.fits(seen@),
                count == marked(seen@).len(),
                marked(seen@).contains(s),
                forall|c: (int, int)| #[trigger] marked(seen@).contains(c) ==> self.connects(s, c, avoid),
                forall|k: int|
                    0 <= k < stack@.len() ==> marked(seen@).contains(as_cell(#[trigger] stack@[k]))
                        && self.in_bounds(as_cell(stack@[k])),
                forall|c: (int, int)|
                    #[trigger] marked(seen@).contains(c) ==> self.closed_at(c, marked(seen@), avoid)
                        || exists|k: int| 0 <= k < stack@.len() && as_cell(stack@[k]) == c,
            decreases 2 * (self.width * self.height - count) + stack@.len(),
        {
            proof {
                self.lemma_marked_bounded(seen@);
            }
            let ghost seen0 = marked(seen@);
            let ghost stack0 = stack@;
            let ghost count0 = count as int;
            let c = stack.pop().unwrap();
            let ghost popped = stack@;
            let mut i: usize = 0;
            while i < 4
                invariant
                    self.wf(),
                    self.in_bounds(s),
                    s == as_cell(pos),
                    self.in_bounds(as_cell(c)),
                    stack0 == popped.push(c),
                    self.fits(seen@),
                    count == marked(seen@).len(),
                    i <= 4,
                    seen0.subset_of(marked(seen@)),
                    seen0.contains(as_cell(c)),
                    forall|x: (int, int)| #[trigger] marked(seen@).contains(x) ==> self.connects(s, x, avoid),
                    stack@.len() >= popped.len(),
                    forall|k: int| 0 <= k < popped.len() ==> stack@[k] == popped[k],
                    forall|k: int|
                        0 <= k < stack@.len() ==> marked(seen@).contains(as_cell(#[trigger] stack@[k]))
                            && self.in_bounds(as_cell(stack@[k])),
                    forall|x: (int, int)|
                        #[trigger] marked(seen@).contains(x) && !seen0.contains(x) ==> exists|k: int|
                            0 <= k < stack@.len() && as_cell(stack@[k]) == x,
                    forall|d: Direction|
                        d.rank() < i && self.passable(#[trigger] self.neighbor(as_cell(c), d), avoid)
                            ==> marked(seen@).contains(self.neighbor(as_cell(c), d)),
                    count == count0 + stack@.len() - popped.len(),
                decreases 4 - i,
            {
                let d = Direction::by_rank(i);
                let n = step_from(c.0, c.1, d, self.width, self.height);
                let ghost before = marked(seen@);
                let ghost stack_before = stack@;
                self.visit(n, avoid, &mut seen, &mut stack, &mut count);
                proof {
                    let m = as_cell(n);
                    if marked(seen@) != before {
                        let w = choose|w: Seq<(int, int)>| self.is_walk(w, avoid) && w[0] == s && w.last() == as_cell(c);
                        let w2 = w.push(m);
                        assert(adjacent(as_cell(c), m, self.cols(), self.rows()));
                        assert(self.is_walk(w2, avoid));
                        assert(w2.last() == m);
                        assert(stack@[stack@.len() - 1] == n);
                    }
                    assert forall|x: (int, int)| #[trigger] marked(seen@).contains(x) && !seen0.contains(x) implies exists|k: int|
                            0 <= k < stack@.len() && as_cell(stack@[k]) == x by {
                        if x == m && !before.contains(x) {
                            assert(as_cell(stack@[stack@.len() - 1]) == x);
                        } else {
                            let k = choose|k: int| 0 <= k < stack_before.len() && as_cell(stack_before[k]) == x;
                            assert(stack@[k] == stack_before[k]);
                        }
                    }
                }
                i = i + 1;
            }
            proof {
                let now = marked(seen@);
                assert(self.closed_at(as_cell(c), now, avoid)) by {
                    assert forall|d: Direction| self.passable(#[trigger] self.neighbor(as_cell(c), d), avoid) implies now.contains(self.neighbor(as_cell(c), d)) by {
                        assert(d.rank() < 4);
                    }
                }
                assert forall|x: (int, int)| #[trigger] now.contains(x) implies self.closed_at(x, now, avoid)
                        || exists|k: int| 0 <= k < stack@.len() && as_cell(stack@[k]) == x by {
                    if seen0.contains(x) && x != as_cell(c) {
                        if !self.closed_at(x, seen0, avoid) {
                            let k = choose|k: int| 0 <= k < stack0.len() && as_cell(stack0[k]) == x;
                            assert(k < popped.len());
                            assert(stack@[k] == popped[k]);
                        } else {
                            assert forall|d: Direction| self.passable(#[trigger] self.neighbor(x, d), avoid) implies now.contains(self.neighbor(x, d)) by {
                                assert(seen0.contains(self.neighbor(x, d)));
                            }
                        }
                    }
                }
                self.lemma_marked_bounded(seen@);
            }
        }
        proof {
            let v = marked(seen@);
            assert forall|c: (int, int)| self.region(s, avoid).contains(c) <==> v.contains(c) by {
                if self.connects(s, c, avoid) {
                    let w = choose|w: Seq<(int, int)>| self.is_walk(w, avoid) && w[0] == s && w.last() == c;
                    self.lemma_walk_inside(w, v, avoid);
                }
            }
            assert(self.region(s, avoid) =~= v);
            self.lemma_marked_bounded(seen@);
        }
        count
    }

    /// A walk that starts in a set closed under passable moves stays in it.
    proof fn lemma_walk_inside(self, w: Seq<(int, int)>, v: Set<(int, int)>, avoid: bool)
        requires
            self.is_walk(w, avoid),
            v.contains(w[0]),
            forall|c: (int, int)| #[trigger] v.contains(c) ==> self.closed_at(c, v, avoid),
        ensures
            v.contains(w.last()),
        decreases w.len(),
    {
        if w.len() > 1 {
            let p = w.drop_last();
            assert(self.is_walk(p, avoid));
            self.lemma_walk_inside(p, v, avoid);
            let a = w[w.len() - 2];
            let b = w.last();
            assert(adjacent(a, b, self.cols(), self.rows()));
            assert(self.closed_at(a, v, avoid));
            assert(self.passable(b, avoid));
            if step(a, Direction::Up, self.cols(), self.rows()) == b {
                assert(self.neighbor(a, Direction::Up) == b);
            } else if step(a, Direction::Down, self.cols(), self.rows()) == b {
                assert(self.neighbor(a, Direction::Down) == b);
            } else if step(a, Direction::Left, self.cols(), self.rows()) == b {
                assert(self.neighbor(a, Direction::Left) == b);
            } else {
                assert(self.neighbor(a, Direction::Right) == b);
            }
        }
    }

    /// The own player's head.
    pub open spec fn head(self) -> (int, int) {
        as_cell(self.registry()[self.me()])
    }

    /// Room left by moving in direction `d`: the size of the region reached
    /// from the cell next to the own head.
    pub open spec fn area(self, d: Direction, avoid: bool) -> nat {
        self.region(self.neighbor(self.head(), d), avoid).len()
    }

    /// `d` leaves some room, at least as much as any direction, and more than
    /// any direction that comes before it in the order up, down, left, right.
    pub open spec fn is_first_largest(self, d: Direction, avoid: bool) -> bool {
        &&& self.area(d, avoid) > 0
        &&& forall|e: Direction| #[trigger] self.area(e, avoid) <= self.area(d, avoid)
        &&& forall|e: Direction|
            e.rank() < d.rank() ==> #[trigger] self.area(e, avoid) < self.area(d, avoid)
    }

    /// Some direction leaves room.
    pub open spec fn has_room(self, avoid: bool) -> bool {
        exists|e: Direction| #[trigger] self.area(e, avoid) > 0
    }

    /// The move taken: the first largest room away from opponents' heads,
    /// else the first largest room at all, else up.
    pub open spec fn decided(self, d: Direction) -> bool {
        if self.has_room(true) {
            self.is_first_largest(d, true)
        } else if self.has_room(false) {
            self.is_first_largest(d, false)
        } else {
            d == Direction::Up
        }
    }

    fn own_head(&self) -> (r: (usize, usize))
        requires
            self.wf(),
            self.registry().contains_key(self.me()),
        ensures
            as_cell(r) == self.head(),
            self.in_bounds(as_cell(r)),
    {
        let j = self.find_slot(self.id).unwrap();
        proof {
            self.lemma_slot(j as int);
        }
        self.heads[j].1
    }

    /// The first direction, in the order up, down, left, right, whose room is
    /// largest, provided it is not zero; `None` when no direction leaves room.
    pub fn direction_with_max_distance(&self, consider_neighbors: bool) -> (r: Option<Direction>)
        requires
            self.wf(),
            self.registry().contains_key(self.me()),
        ensures
            r is None <==> !self.has_room(consider_neighbors),
            r matches Some(d) ==> self.is_first_largest(d, consider_neighbors),
    {
        let avoid = consider_neighbors;
        let (hx, hy) = self.own_head();
        let mut best: Option<(Direction, usize)> = None;
        let mut i: usize = 0;
        while i < 4
            invariant
                self.wf(),
                self.registry().contains_key(self.me()),
                self.head() == (hx as int, hy as int),
                i <= 4,
                best is None ==> forall|e: Direction|
                    e.rank() < i ==> #[trigger] self.area(e, avoid) == 0,
                best matches Some((d, a)) ==> {
                    &&& a == self.area(d, avoid)
                    &&& a > 0
                    &&& d.rank() < i
                    &&& forall|e: Direction|
                        e.rank() < i ==> #[trigger] self.area(e, avoid) <= a
                    &&& forall|e: Direction|
                        e.rank() < d.rank() ==> #[trigger] self.area(e, avoid) < a
                },
            decreases 4 - i,
        {
            let d = Direction::by_rank(i);
            let n = step_from(hx, hy, d, self.width, self.height);
            let a = self.reachable(n, avoid);
            let better = match best {
                None => a > 0,
                Some((_, b)) => a > b,
            };
            if better {
                best = Some((d, a));
            }
            i = i + 1;
        }
        match best {
            None => None,
            Some((d, _)) => Some(d),
        }
    }

    /// The move for this tick: the first largest room away from opponents'
    /// heads, else the first largest room at all, else up. Fails when the own
    /// player has no head on the board.
    pub fn next_move(&self) -> (r: Result<Direction, CoreError>)
        requires
            self.wf(),
        ensures
            !self.registry().contains_key(self.me()) <==> r is Err,
            r is Err ==> r == Err::<Direction, CoreError>(CoreError::SelectorInvokedWhileIdle),
            r matches Ok(d) ==> self.decided(d),
    {
        if self.find_slot(self.id).is_none() {
            return Err(CoreError::SelectorInvokedWhileIdle);
        }
        match self.direction_with_max_distance(true) {
            Some(d) => Ok(d),
            None => match self.direction_with_max_distance(false) {
                Some(d) => Ok(d),
                None => Ok(Direction::Up),
            },
        }
    }

    /// The own player.
    pub fn id(&self) -> (r: usize)
        ensures
            r == self.me(),
    {
        self.id
    }

    /// Number of columns.
    pub fn width(&self) -> (r: usize)
        ensures
            r == self.cols(),
    {
        self.width
    }

    /// Number of rows.
    pub fn height(&self) -> (r: usize)
        ensures
            r == self.rows(),
    {
        self.height
    }

    /// The current head of player `p`, if it is live.
    pub fn head_of(&self, p: usize) -> (r: Option<(usize, usize)>)
        requires
            self.wf(),
        ensures
            r == if self.registry().contains_key(p) {
                Some(self.registry()[p])
            } else {
                None
            },
    {
        match self.find_slot(p) {
            Some(j) => {
                proof {
                    self.lemma_slot(j as int);
                }
                Some(self.heads[j].1)
            },
            None => None,
        }
    }

    /// The player whose trail occupies `(x, y)`, if any.
    pub fn owner(&self, x: usize, y: usize) -> (r: Option<usize>)
        requires
            self.wf(),
            self.in_bounds((x as int, y as int)),
        ensures
            r == self.cell((x as int, y as int)),
    {
        self.map[y][x]
    }

    /// Whether no trail occupies `(x, y)`.
    pub fn is_empty(&self, x: usize, y: usize) -> (r: bool)
        requires
            self.wf(),
            self.in_bounds((x as int, y as int)),
        ensures
            r == (self.cell((x as int, y as int)) is None),
    {
        self.map[y][x].is_none()
    }
}

} // verus!

verus! {

/// Without opponents, keeping away from opponents' heads changes no region.
proof fn lemma_no_opponents_same_regions(g: GameState, s: (int, int))
    requires
        g.wf(),
        g.registry().dom() == set![g.me()],
    ensures
        g.region(s, true) == g.region(s, false),
{
    assert forall|c: (int, int)| !g.near_opponent(c) by {
        if g.near_opponent(c) {
            let p = choose|p: usize|
                #![trigger g.registry()[p]]
                g.registry().contains_key(p) && p != g.me() && adjacent(
                    as_cell(g.registry()[p]),
                    c,
                    g.cols(),
                    g.rows(),
                );
            assert(g.registry().dom().contains(p));
        }
    }
    assert forall|c: (int, int)| g.region(s, true).contains(c) <==> g.region(s, false).contains(c) by {
        if g.connects(s, c, true) {
            let w = choose|w: Seq<(int, int)>| g.is_walk(w, true) && w[0] == s && w.last() == c;
            assert(g.is_walk(w, false));
        }
        if g.connects(s, c, false) {
            let w = choose|w: Seq<(int, int)>| g.is_walk(w, false) && w[0] == s && w.last() == c;
            assert(g.is_walk(w, true));
        }
    }
    assert(g.region(s, true) =~= g.region(s, false));
}

/// When the own player is alone on the board, the move taken leaves at least
/// as much room as any other move, and more than every move that comes
/// before it in the order up, down, left, right.
pub proof fn lemma_alone_takes_largest_room(g: GameState, d: Direction)
    requires
        g.wf(),
        g.registry().dom() == set![g.me()],
        g.decided(d),
    ensures
        forall|e: Direction| #[trigger] g.area(e, false) <= g.area(d, false),
        forall|e: Direction| e.rank() < d.rank() ==> #[trigger] g.area(e, false) < g.area(d, false),
{
    assert forall|e: Direction| #[trigger] g.area(e, true) == g.area(e, false) by {
        lemma_no_opponents_same_regions(g, g.neighbor(g.head(), e));
    }
    if g.has_room(false) {
        let e = choose|e: Direction| #[trigger] g.area(e, false) > 0;
        assert(g.area(e, true) > 0);
        assert(g.has_room(true));
        assert(g.is_first_largest(d, true));
        assert forall|e: Direction| #[trigger] g.area(e, false) <= g.area(d, false) by {
            assert(g.area(e, true) <= g.area(d, true));
        }
        assert forall|e: Direction| e.rank() < d.rank() implies #[trigger] g.area(e, false) < g.area(
            d,
            false,
        ) by {
            assert(g.area(e, true) < g.area(d, true));
        }
    } else {
        assert forall|e: Direction| #[trigger] g.area(e, false) == 0 by {
            if g.area(e, false) > 0 {
                assert(g.has_room(false));
            }
        }
        assert forall|e: Direction| #[trigger] g.area(e, true) == 0 by {
            assert(g.area(e, false) == 0);
        }
        assert(!g.has_room(true));
        assert(d == Direction::Up);
    }
}

/// The region reached from any cell holds only cells of the board without
/// trail.
pub proof fn lemma_region_unoccupied(g: GameState, s: (int, int), avoid: bool)
    ensures
        forall|c: (int, int)|
            #[trigger] g.region(s, avoid).contains(c) ==> g.in_bounds(c) && g.cell(c) is None,
{
    assert forall|c: (int, int)| #[trigger] g.region(s, avoid).contains(c) implies g.in_bounds(c)
        && g.cell(c) is None by {
        let w = choose|w: Seq<(int, int)>| g.is_walk(w, avoid) && w[0] == s && w.last() == c;
        assert(g.passable(w[w.len() - 1], avoid));
    }
}

/// Inside an enclosure, a set of cells that no passable move leaves, the
/// region reached from a cell of it holds only its cells without trail.
pub proof fn lemma_region_within_enclosure(
    g: GameState,
    s: (int, int),
    k: Set<(int, int)>,
    avoid: bool,
)
    requires
        k.contains(s),
        forall|c: (int, int), d: Direction|
            k.contains(c) && g.passable(#[trigger] g.neighbor(c, d), avoid) ==> k.contains(
                g.neighbor(c, d),
            ),
    ensures
        g.region(s, avoid).subset_of(k.filter(|c: (int, int)| g.cell(c) is None)),
{
    assert forall|c: (int, int)| #[trigger] g.region(s, avoid).contains(c) implies k.filter(
        |c: (int, int)| g.cell(c) is None,
    ).contains(c) by {
        let w = choose|w: Seq<(int, int)>| g.is_walk(w, avoid) && w[0] == s && w.last() == c;
        assert forall|x: (int, int)| #[trigger] k.contains(x) implies g.closed_at(x, k, avoid) by {
            assert forall|d: Direction|
                g.passable(#[trigger] g.neighbor(x, d), avoid) implies k.contains(g.neighbor(x, d)) by {
            }
        }
        g.lemma_walk_inside(w, k, avoid);
        assert(g.passable(w[w.len() - 1], avoid));
    }
}

/// Adjacency wraps at the side edges: an opponent's head in the first column
/// is next to the cell of the last column in the same row.
pub proof fn lemma_adjacency_wraps_at_sides(g: GameState, p: usize)
    requires
        g.wf(),
        g.registry().contains_key(p),
        p != g.me(),
        g.registry()[p].0 == 0,
    ensures
        g.near_opponent((g.cols() - 1, g.registry()[p].1 as int)),
{
    let h = as_cell(g.registry()[p]);
    assert(step(h, Direction::Left, g.cols(), g.rows()) == (g.cols() - 1, h.1));
}

} // verus!
