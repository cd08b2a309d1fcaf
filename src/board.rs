use std::collections::HashSet;
use vstd::arithmetic::div_mod::{lemma_fundamental_div_mod, lemma_fundamental_div_mod_converse};
use vstd::prelude::*;

verus! {

broadcast use vstd::std_specs::hash::group_hash_axioms, vstd::set::group_set_axioms;

/// A cell of the board, as (column, row).
pub type Position = (usize, usize);

/// What opening a cell reveals.
#[derive(Debug, Clone, Copy, PartialEq, Eq, Structural)]
pub enum OpenResult {
    Mine,
    NoMine(u8),
}

/// Why a board could not be built.
#[derive(Debug, Clone, Copy, PartialEq, Eq, Structural)]
pub enum BoardError {
    /// A side of zero, a grid too large to number, or more mines than cells.
    InvalidConfiguration,
}

/// The abstract state of a board: its size and three sets of cells.
pub struct BoardModel {
    pub width: nat,
    pub height: nat,
    pub mines: Set<Position>,
    pub opened: Set<Position>,
    pub flagged: Set<Position>,
}

/// The cells whose keys (row-major numbers) lie in `keys`.
pub open spec fn cells_of(width: nat, height: nat, keys: Set<usize>) -> Set<Position> {
    Set::new(
        |p: Position|
            p.0 < width && p.1 < height && keys.contains((p.1 * width + p.0) as usize),
    )
}

/// The `k`-th cell of the 3 by 3 block centred on `p`, column by column.
pub open spec fn block_cell(p: Position, k: int) -> (int, int) {
    (p.0 + k / 3 - 1, p.1 + k % 3 - 1)
}

/// The cells of the block centred on `p`, from its `k`-th on, that lie on a
/// `width` by `height` grid and are not `p` itself.
pub open spec fn neighbours_from(width: nat, height: nat, p: Position, k: int) -> Seq<Position>
    decreases 9 - k,
{
    if k >= 9 {
        Seq::empty()
    } else {
        let c = block_cell(p, k);
        let rest = neighbours_from(width, height, p, k + 1);
        if 0 <= c.0 < width && 0 <= c.1 < height && c != (p.0 as int, p.1 as int) {
            seq![(c.0 as usize, c.1 as usize)] + rest
        } else {
            rest
        }
    }
}

/// The glyph of an open cell with `n` mines around it.
pub open spec fn count_glyph(n: nat) -> Seq<char> {
    if n == 0 {
        "0  "@
    } else if n == 1 {
        "1  "@
    } else if n == 2 {
        "2  "@
    } else if n == 3 {
        "3  "@
    } else if n == 4 {
        "4  "@
    } else if n == 5 {
        "5  "@
    } else if n == 6 {
        "6  "@
    } else if n == 7 {
        "7  "@
    } else {
        "8  "@
    }
}

impl BoardModel {
    pub open spec fn in_bounds(self, p: Position) -> bool {
        p.0 < self.width && p.1 < self.height
    }

    /// The Moore neighbourhood of `p`, clipped at the edges of the grid.
    pub open spec fn neighbours(self, p: Position) -> Seq<Position> {
        neighbours_from(self.width, self.height, p, 0)
    }

    /// How many neighbours of `p` hold a mine.
    pub open spec fn neighbouring_mines(self, p: Position) -> nat {
        self.neighbours(p).filter(|q: Position| self.mines.contains(q)).len()
    }

    /// The board after `toggle_flag(p)`.
    pub open spec fn toggle_flag_spec(self, p: Position) -> BoardModel {
        if self.opened.contains(p) {
            self
        } else if self.flagged.contains(p) {
            BoardModel { flagged: self.flagged.remove(p), ..self }
        } else {
            BoardModel { flagged: self.flagged.insert(p), ..self }
        }
    }

    /// What `open(p)` returns.
    pub open spec fn open_result(self, p: Position) -> Option<OpenResult> {
        if self.flagged.contains(p) {
            None
        } else if self.mines.contains(p) {
            Some(OpenResult::Mine)
        } else {
            Some(OpenResult::NoMine(self.neighbouring_mines(p) as u8))
        }
    }

    /// The board after `open(p)`.
    pub open spec fn open_spec(self, p: Position) -> BoardModel {
        if self.flagged.contains(p) {
            self
        } else {
            BoardModel { opened: self.opened.insert(p), ..self }
        }
    }

    /// The glyph that shows cell `p`.
    pub open spec fn glyph(self, p: Position) -> Seq<char> {
        if !self.opened.contains(p) {
            if self.flagged.contains(p) {
                "🚩 "@
            } else {
                "🟪 "@
            }
        } else if self.mines.contains(p) {
            "💣 "@
        } else {
            count_glyph(self.neighbouring_mines(p))
        }
    }

    /// The glyphs of the first `x` cells of row `y`.
    pub open spec fn row_text(self, y: nat, x: nat) -> Seq<char>
        decreases x,
    {
        if x == 0 {
            Seq::empty()
        } else {
            self.row_text(y, (x - 1) as nat) + self.glyph(((x - 1) as usize, y as usize))
        }
    }

    /// The first `y` rows, each ended by a newline.
    pub open spec fn text(self, y: nat) -> Seq<char>
        decreases y,
    {
        if y == 0 {
            Seq::empty()
        } else {
            self.text((y - 1) as nat) + self.row_text((y - 1) as nat, self.width) + "\n"@
        }
    }
}

/// A Minesweeper board. Cells are kept by key: row times width plus column.
#[derive(Debug)]
pub struct Minesweeper {
    width: usize,
    height: usize,
    open_fields: HashSet<usize>,
    mines: HashSet<usize>,
    flagged_fields: HashSet<usize>,
}

impl View for Minesweeper {
    type V = BoardModel;

    closed spec fn view(&self) -> BoardModel {
        BoardModel {
            width: self.width as nat,
            height: self.height as nat,
            mines: cells_of(self.width as nat, self.height as nat, self.mines@),
            opened: cells_of(self.width as nat, self.height as nat, self.open_fields@),
            flagged: cells_of(self.width as nat, self.height as nat, self.flagged_fields@),
        }
    }
}

/// The deck of keys `0..n` before any draw.
pub open spec fn full_deck(n: nat) -> Seq<usize> {
    Seq::new(n, |i: int| i as usize)
}

/// The deck after the given draws: each draw `r` takes out the `r`-th key,
/// and the last key of the deck moves into its place.
pub open spec fn deck_after(n: nat, draws: Seq<usize>) -> Seq<usize>
    decreases draws.len(),
{
    if draws.len() == 0 {
        full_deck(n)
    } else {
        let deck = deck_after(n, draws.drop_last());
        let r = draws.last() as int;
        deck.update(r, deck.last()).drop_last()
    }
}

/// The keys that the given draws take out of the deck.
pub open spec fn drawn_keys(n: nat, draws: Seq<usize>) -> Set<usize>
    decreases draws.len(),
{
    if draws.len() == 0 {
        Set::empty()
    } else {
        let deck = deck_after(n, draws.drop_last());
        drawn_keys(n, draws.drop_last()).insert(deck[draws.last() as int])
    }
}

/// Draws that each fall within the deck they are made from: the `i`-th
/// lies below `n - i`.
pub open spec fn valid_draws(n: nat, draws: Seq<usize>) -> bool {
    forall|i: int| 0 <= i < draws.len() ==> draws[i] + i < n
}

/// The grid sizes that a board accepts: both sides positive, every cell
/// numbered by a `usize`.
pub open spec fn valid_size(width: nat, height: nat) -> bool {
    width > 0 && height > 0 && width * height <= usize::MAX
}

/// Distinct cells of a grid of the given width have distinct keys.
proof fn lemma_key_injective(width: nat, p: Position, q: Position)
    requires
        width > 0,
        p.0 < width,
        q.0 < width,
        p.1 * width + p.0 == q.1 * width + q.0,
    ensures
        p == q,
{
    let k = p.1 * width + p.0;
    lemma_fundamental_div_mod_converse(k, width as int, p.1 as int, p.0 as int);
    lemma_fundamental_div_mod_converse(k, width as int, q.1 as int, q.0 as int);
}

/// The key of a cell in bounds lies below the number of cells.
proof fn lemma_key_bound(width: nat, height: nat, p: Position)
    requires
        p.0 < width,
        p.1 < height,
    ensures
        p.1 * width + p.0 < width * height,
{
    assert(p.1 * width + p.0 < width * height) by (nonlinear_arith)
        requires
            p.0 < width,
            p.1 < height,
    ;
}

/// Adding the key of an in-bounds cell `p` adds `p` to the cells.
proof fn lemma_cells_insert(width: nat, height: nat, keys: Set<usize>, p: Position)
    requires
        valid_size(width, height),
        p.0 < width,
        p.1 < height,
    ensures
        cells_of(width, height, keys.insert((p.1 * width + p.0) as usize)) == cells_of(
            width,
            height,
            keys,
        ).insert(p),
{
    lemma_key_bound(width, height, p);
    assert forall|q: Position|
        #![trigger cells_of(width, height, keys).insert(p).contains(q)]
        q.0 < width && q.1 < height && (q.1 * width + q.0) as usize == (p.1 * width
            + p.0) as usize implies q == p by {
        lemma_key_bound(width, height, q);
        lemma_key_injective(width, p, q);
    }
    assert(cells_of(width, height, keys.insert((p.1 * width + p.0) as usize)) =~= cells_of(
        width,
        height,
        keys,
    ).insert(p));
}

/// Taking out the key of an in-bounds cell `p` takes `p` out of the cells.
proof fn lemma_cells_remove(width: nat, height: nat, keys: Set<usize>, p: Position)
    requires
        valid_size(width, height),
        p.0 < width,
        p.1 < height,
    ensures
        cells_of(width, height, keys.remove((p.1 * width + p.0) as usize)) == cells_of(
            width,
            height,
            keys,
        ).remove(p),
{
    lemma_key_bound(width, height, p);
    assert forall|q: Position|
        #![trigger cells_of(width, height, keys).remove(p).contains(q)]
        q.0 < width && q.1 < height && (q.1 * width + q.0) as usize == (p.1 * width
            + p.0) as usize implies q == p by {
        lemma_key_bound(width, height, q);
        lemma_key_injective(width, p, q);
    }
    assert(cells_of(width, height, keys.remove((p.1 * width + p.0) as usize)) =~= cells_of(
        width,
        height,
        keys,
    ).remove(p));
}

/// The clipped neighbourhood holds at most one cell per remaining block
/// position, each of them on the grid.
proof fn lemma_neighbours_from(width: nat, height: nat, p: Position, k: int)
    requires
        0 <= k <= 9,
    ensures
        neighbours_from(width, height, p, k).len() <= 9 - k,
        forall|i: int|
            0 <= i < neighbours_from(width, height, p, k).len() ==> {
                let q = #[trigger] neighbours_from(width, height, p, k)[i];
                q.0 < width && q.1 < height
            },
    decreases 9 - k,
{
    if k < 9 {
        lemma_neighbours_from(width, height, p, k + 1);
    }
}

/// `c + d - 1`, where it lies in `0..n`.
fn offset(c: usize, d: usize, n: usize) -> (r: Option<usize>)
    requires
        c < n,
        d < 3,
    ensures
        r == (if 0 <= c + d - 1 < n {
            Some((c + d - 1) as usize)
        } else {
            None
        }),
{
    if d == 0 {
        if c >= 1 {
            Some(c - 1)
        } else {
            None
        }
    } else if d == 1 {
        Some(c)
    } else if c + 1 < n {
        Some(c + 1)
    } else {
        None
    }
}

/// Keys below `width * height` and the cells they name are in one-to-one
/// correspondence, so both sets have the same size.
proof fn lemma_cells_len(width: nat, height: nat, keys: Set<usize>)
    requires
        valid_size(width, height),
        keys.finite(),
        forall|k: usize| #[trigger] keys.contains(k) ==> k < width * height,
    ensures
        cells_of(width, height, keys).finite(),
        cells_of(width, height, keys).len() == keys.len(),
{
    let cells = cells_of(width, height, keys);
    let f = |k: usize| ((k as nat % width) as usize, (k as nat / width) as usize);
    assert forall|k: usize| keys.contains(k) implies {
        let p = #[trigger] f(k);
        p.0 < width && p.1 < height && p.1 * width + p.0 == k
    } by {
        let q = k as nat / width;
        let r = k as nat % width;
        lemma_fundamental_div_mod(k as int, width as int);
        assert(q < height && q * width + r == k) by (nonlinear_arith)
            requires
                k == width * q + r,
                0 <= r,
                k < width * height,
                width > 0,
        ;
    }
    assert forall|a: usize, b: usize|
        keys.contains(a) && keys.contains(b) && #[trigger] f(a) == #[trigger] f(b) implies a
        == b by {}
    assert forall|p: Position| #[trigger] cells.contains(p) implies keys.map(f).contains(p) by {
        let k = (p.1 * width + p.0) as usize;
        lemma_key_bound(width, height, p);
        lemma_fundamental_div_mod_converse(k as int, width as int, p.1 as int, p.0 as int);
        assert(f(k) == p);
    }
    assert(keys.map(f) =~= cells);
    vstd::set_lib::lemma_map_size(keys, cells, f);
}

/// Relies on `String::push_str`: appends `s` at the end of `text`.
#[verifier::external_body]
fn append(text: &mut String, s: &str)
    ensures
        final(text)@ == old(text)@ + s@,
{
    text.push_str(s);
}

/// The text that shows an open cell with `n` mines around it.
fn count_text(n: u8) -> (r: &'static str)
    ensures
        r@ == count_glyph(n as nat),
{
    if n == 0 {
        "0  "
    } else if n == 1 {
        "1  "
    } else if n == 2 {
        "2  "
    } else if n == 3 {
        "3  "
    } else if n == 4 {
        "4  "
    } else if n == 5 {
        "5  "
    } else if n == 6 {
        "6  "
    } else if n == 7 {
        "7  "
    } else {
        "8  "
    }
}

impl Minesweeper {
    /// The board's own invariant: a valid size, every key naming a cell of
    /// the grid, finitely many mines, and no cell both open and flagged.
    pub closed spec fn wf(&self) -> bool {
        &&& valid_size(self.width as nat, self.height as nat)
        &&& self.mines@.finite()
        &&& forall|k: usize| #[trigger] self.mines@.contains(k) ==> k < self.width * self.height
        &&& forall|k: usize|
            #[trigger] self.open_fields@.contains(k) ==> k < self.width * self.height
        &&& forall|k: usize|
            #[trigger] self.flagged_fields@.contains(k) ==> k < self.width * self.height
        &&& self.open_fields@.disjoint(self.flagged_fields@)
    }

    fn key(&self, p: Position) -> (k: usize)
        requires
            self.wf(),
            self@.in_bounds(p),
        ensures
            k == p.1 * self.width + p.0,
    {
        proof {
            lemma_key_bound(self.width as nat, self.height as nat, p);
        }
        p.1 * self.width + p.0
    }

    /// The keys of the mines that the draws pick, one mine per draw.
    fn gen_mines(n: usize, draws: &Vec<usize>) -> (mines: HashSet<usize>)
        requires
            valid_draws(n as nat, draws@),
        ensures
            mines@ == drawn_keys(n as nat, draws@),
            mines@.finite(),
            mines@.len() == draws.len(),
            forall|k: usize| #[trigger] mines@.contains(k) ==> k < n,
    {
        let mut deck: Vec<usize> = Vec::new();
        let mut i: usize = 0;
        while i < n
            invariant
                i <= n,
                deck@ =~= full_deck(i as nat),
            decreases n - i,
        {
            deck.push(i);
            i += 1;
        }
        assert(deck@ =~= deck_after(n as nat, draws@.take(0)));
        let mut mines: HashSet<usize> = HashSet::new();
        let mut t: usize = 0;
        while t < draws.len()
            invariant
                valid_draws(n as nat, draws@),
                t <= draws.len(),
                deck@ == deck_after(n as nat, draws@.take(t as int)),
                mines@ == drawn_keys(n as nat, draws@.take(t as int)),
                deck.len() + t == n,
                mines@.finite(),
                mines@.len() == t,
                deck@.no_duplicates(),
                forall|j: int| 0 <= j < deck.len() ==> #[trigger] deck@[j] < n,
                forall|j: int| 0 <= j < deck.len() ==> !mines@.contains(#[trigger] deck@[j]),
                forall|k: usize| #[trigger] mines@.contains(k) ==> k < n,
            decreases draws.len() - t,
        {
            let r = draws[t];
            let ghost before = deck@;
            let c = deck.swap_remove(r);
            mines.insert(c);
            proof {
                assert(draws@.take(t + 1).drop_last() =~= draws@.take(t as int));
                assert(draws@.take(t + 1).last() == r);
                assert forall|j: int| 0 <= j < deck.len() implies deck@[j] != c
                    && before.contains(#[trigger] deck@[j]) by {
                    if j == r {
                        assert(deck@[j] == before[before.len() - 1]);
                    } else {
                        assert(deck@[j] == before[j]);
                    }
                }
                assert forall|a: int, b: int|
                    0 <= a < deck.len() && 0 <= b < deck.len() && a != b implies #[trigger] deck@[a]
                    != #[trigger] deck@[b] by {
                    let ia = if a == r { before.len() - 1 } else { a };
                    let ib = if b == r { before.len() - 1 } else { b };
                    assert(deck@[a] == before[ia]);
                    assert(deck@[b] == before[ib]);
                }
            }
            t += 1;
        }
        assert(draws@.take(draws.len() as int) =~= draws@);
        mines
    }

    /// A board whose mines are picked by the given draws from a deck of all
    /// cells: the seeded form of `new`.
    pub fn from_draws(width: usize, height: usize, draws: &Vec<usize>) -> (r: Minesweeper)
        requires
            valid_size(width as nat, height as nat),
            valid_draws((width * height) as nat, draws@),
        ensures
            r.wf(),
            r@.width == width,
            r@.height == height,
            r@.mines == cells_of(width as nat, height as nat, drawn_keys((width * height) as nat, draws@)),
            r@.mines.finite(),
            r@.mines.len() == draws.len(),
            r@.opened == Set::<Position>::empty(),
            r@.flagged == Set::<Position>::empty(),
    {
        let mines = Self::gen_mines(width * height, draws);
        let b = Minesweeper {
            width,
            height,
            open_fields: HashSet::new(),
            mines,
            flagged_fields: HashSet::new(),
        };
        proof {
            lemma_cells_len(width as nat, height as nat, mines@);
            assert(b@.opened =~= Set::<Position>::empty());
            assert(b@.flagged =~= Set::<Position>::empty());
        }
        b
    }

    /// A board with `mine_count` mines placed uniformly at random.
    pub fn new(width: usize, height: usize, mine_count: usize) -> (r: Minesweeper)
        requires
            valid_size(width as nat, height as nat),
            mine_count <= width * height,
        ensures
            r.wf(),
            r@.width == width,
            r@.height == height,
            r@.mines.finite(),
            r@.mines.len() == mine_count,
            forall|p: Position| #[trigger] r@.mines.contains(p) ==> r@.in_bounds(p),
            r@.opened == Set::<Position>::empty(),
            r@.flagged == Set::<Position>::empty(),
    {
        let n = width * height;
        let mut draws: Vec<usize> = Vec::new();
        let mut i: usize = 0;
        while i < mine_count
            invariant
                i <= mine_count <= n,
                draws.len() == i,
                valid_draws(n as nat, draws@),
            decreases mine_count - i,
        {
            let r = crate::random::random_below(n - i);
            draws.push(r);
            i += 1;
        }
        Self::from_draws(width, height, &draws)
    }

    /// The board as text: one line per row, row 0 first, one glyph per cell.
    pub fn render(&self) -> (r: String)
        requires
            self.wf(),
        ensures
            r@ == self@.text(self@.height),
    {
        let mut out = String::new();
        let mut y: usize = 0;
        while y < self.height
            invariant
                self.wf(),
                y <= self.height,
                out@ == self@.text(y as nat),
            decreases self.height - y,
        {
            let mut x: usize = 0;
            while x < self.width
                invariant
                    self.wf(),
                    y < self.height,
                    x <= self.width,
                    out@ == self@.text(y as nat) + self@.row_text(y as nat, x as nat),
                decreases self.width - x,
            {
                let k = self.key((x, y));
                let g: &str = if !self.open_fields.contains(&k) {
                    if self.flagged_fields.contains(&k) {
                        "🚩 "
                    } else {
                        "🟪 "
                    }
                } else if self.mines.contains(&k) {
                    "💣 "
                } else {
                    count_text(self.neighbouring_mines((x, y)))
                };
                assert(g@ == self@.glyph((x, y)));
                append(&mut out, g);
                assert(out@ =~= self@.text(y as nat) + self@.row_text(y as nat, x as nat + 1));
                x += 1;
            }
            append(&mut out, "\n");
            y += 1;
        }
        out
    }

    /// Like `new`, but refuses a grid with a side of zero, one whose cells a
    /// `usize` cannot number, or more mines than cells.
    pub fn try_new(width: usize, height: usize, mine_count: usize) -> (r: Result<
        Minesweeper,
        BoardError,
    >)
        ensures
            r is Ok <==> valid_size(width as nat, height as nat) && mine_count <= width * height,
            r is Err ==> r == Err::<Minesweeper, BoardError>(BoardError::InvalidConfiguration),
            r matches Ok(b) ==> {
                &&& b.wf()
                &&& b@.width == width
                &&& b@.height == height
                &&& b@.mines.finite()
                &&& b@.mines.len() == mine_count
                &&& forall|p: Position| #[trigger] b@.mines.contains(p) ==> b@.in_bounds(p)
                &&& b@.opened == Set::<Position>::empty()
                &&& b@.flagged == Set::<Position>::empty()
            },
    {
        if width == 0 || height == 0 {
            return Err(BoardError::InvalidConfiguration);
        }
        match width.checked_mul(height) {
            Some(n) => {
                if mine_count > n {
                    Err(BoardError::InvalidConfiguration)
                } else {
                    Ok(Self::new(width, height, mine_count))
                }
            },
            None => Err(BoardError::InvalidConfiguration),
        }
    }

    /// Flags a hidden cell, unflags a flagged one, and leaves an open one as
    /// it is.
    pub fn toggle_flag(&mut self, pos: Position)
        requires
            old(self).wf(),
            old(self)@.in_bounds(pos),
        ensures
            final(self).wf(),
            final(self)@ == old(self)@.toggle_flag_spec(pos),
    {
        let k = self.key(pos);
        proof {
            lemma_key_bound(self.width as nat, self.height as nat, pos);
        }
        if self.open_fields.contains(&k) {
            return;
        }
        if self.flagged_fields.contains(&k) {
            self.flagged_fields.remove(&k);
            proof {
                lemma_cells_remove(self.width as nat, self.height as nat, old(self).flagged_fields@, pos);
            }
        } else {
            self.flagged_fields.insert(k);
            proof {
                lemma_cells_insert(self.width as nat, self.height as nat, old(self).flagged_fields@, pos);
            }
        }
    }
    /// The cells around `pos` on the grid, column by column.
    pub fn iter_neighbours(&self, pos: Position) -> (r: Vec<Position>)
        requires
            self.wf(),
            self@.in_bounds(pos),
        ensures
            r@ == self@.neighbours(pos),
    {
        let ghost w = self.width as nat;
        let ghost h = self.height as nat;
        let mut out: Vec<Position> = Vec::new();
        let mut k: usize = 0;
        while k < 9
            invariant
                k <= 9,
                self@.in_bounds(pos),
                w == self.width,
                h == self.height,
                out@ + neighbours_from(w, h, pos, k as int) == neighbours_from(w, h, pos, 0),
            decreases 9 - k,
        {
            let ghost before = out@;
            let dx: usize = k / 3;
            let dy: usize = k % 3;
            let col = offset(pos.0, dx, self.width);
            let row = offset(pos.1, dy, self.height);
            if let (Some(i), Some(j)) = (col, row) {
                if !(dx == 1 && dy == 1) {
                    out.push((i, j));
                    assert(out@ + neighbours_from(w, h, pos, k + 1) =~= before + neighbours_from(
                        w,
                        h,
                        pos,
                        k as int,
                    ));
                }
            }
            k += 1;
        }
        assert(out@ + neighbours_from(w, h, pos, 9) =~= out@);
        out
    }

    /// How many cells around `pos` hold a mine.
    pub fn neighbouring_mines(&self, pos: Position) -> (r: u8)
        requires
            self.wf(),
            self@.in_bounds(pos),
        ensures
            r as nat == self@.neighbouring_mines(pos),
    {
        let nbrs = self.iter_neighbours(pos);
        let ghost m = self@;
        proof {
            lemma_neighbours_from(m.width, m.height, pos, 0);
        }
        let mut count: u8 = 0;
        let mut i: usize = 0;
        while i < nbrs.len()
            invariant
                self.wf(),
                m == self@,
                nbrs@ == m.neighbours(pos),
                nbrs@.len() <= 9,
                i <= nbrs@.len(),
                count as nat == nbrs@.take(i as int).filter(|q: Position| m.mines.contains(q)).len(),
            decreases nbrs.len() - i,
        {
            let q = nbrs[i];
            proof {
                lemma_neighbours_from(m.width, m.height, pos, 0);
                nbrs@.take(i as int).lemma_filter_len(|q: Position| m.mines.contains(q));
                assert(nbrs@.take(i as int + 1).drop_last() =~= nbrs@.take(i as int));
                assert(nbrs@.take(i as int + 1).last() == q);
            }
            let kq = self.key(q);
            let hit = self.mines.contains(&kq);
            proof {
                let s = nbrs@.take(i as int + 1);
                let f = |q: Position| m.mines.contains(q);
                reveal(Seq::filter);
                assert(s.filter(f) == if f(q) {
                    nbrs@.take(i as int).filter(f).push(q)
                } else {
                    nbrs@.take(i as int).filter(f)
                });
            }
            if hit {
                count += 1;
            }
            i += 1;
        }
        assert(nbrs@.take(nbrs.len() as int) =~= nbrs@);
        count
    }

    /// Opens `position` unless it is flagged, and tells what it holds.
    pub fn open(&mut self, position: Position) -> (r: Option<OpenResult>)
        requires
            old(self).wf(),
            old(self)@.in_bounds(position),
        ensures
            final(self).wf(),
            final(self)@ == old(self)@.open_spec(position),
            r == old(self)@.open_result(position),
    {
        let k = self.key(position);
        proof {
            lemma_key_bound(self.width as nat, self.height as nat, position);
        }
        if self.flagged_fields.contains(&k) {
            return None;
        }
        self.open_fields.insert(k);
        proof {
            lemma_cells_insert(self.width as nat, self.height as nat, old(self).open_fields@, position);
        }
        if self.mines.contains(&k) {
            Some(OpenResult::Mine)
        } else {
            Some(OpenResult::NoMine(self.neighbouring_mines(position)))
        }
    }

    pub fn width(&self) -> (r: usize)
        ensures
            r == self@.width,
    {
        self.width
    }

    pub fn height(&self) -> (r: usize)
        ensures
            r == self@.height,
    {
        self.height
    }

    /// How many mines the board holds.
    pub fn mine_count(&self) -> (r: usize)
        requires
            self.wf(),
        ensures
            r == self@.mines.len(),
    {
        proof {
            lemma_cells_len(self.width as nat, self.height as nat, self.mines@);
        }
        self.mines.len()
    }

    pub fn is_mine(&self, pos: Position) -> (r: bool)
        requires
            self.wf(),
            self@.in_bounds(pos),
        ensures
            r == self@.mines.contains(pos),
    {
        let k = self.key(pos);
        self.mines.contains(&k)
    }

    pub fn is_open(&self, pos: Position) -> (r: bool)
        requires
            self.wf(),
            self@.in_bounds(pos),
        ensures
            r == self@.opened.contains(pos),
    {
        let k = self.key(pos);
        self.open_fields.contains(&k)
    }

    pub fn is_flagged(&self, pos: Position) -> (r: bool)
        requires
            self.wf(),
            self@.in_bounds(pos),
        ensures
            r == self@.flagged.contains(pos),
    {
        let k = self.key(pos);
        self.flagged_fields.contains(&k)
    }
}

/// Every board keeps its open and its flagged cells apart.
pub proof fn lemma_open_and_flagged_disjoint(b: &Minesweeper)
    requires
        b.wf(),
    ensures
        b@.opened.disjoint(b@.flagged),
{
}

/// Opening and flagging keep open and flagged cells apart, so no sequence of
/// them brings a cell into both sets.
pub proof fn lemma_ops_keep_disjoint(m: BoardModel, p: Position)
    requires
        m.opened.disjoint(m.flagged),
    ensures
        m.open_spec(p).opened.disjoint(m.open_spec(p).flagged),
        m.toggle_flag_spec(p).opened.disjoint(m.toggle_flag_spec(p).flagged),
{
}

/// Opening a flagged cell opens nothing and returns no result.
pub proof fn lemma_open_flagged_is_noop(m: BoardModel, p: Position)
    requires
        m.flagged.contains(p),
    ensures
        m.open_spec(p).opened == m.opened,
        m.open_spec(p) == m,
        m.open_result(p) is None,
{
}

/// Toggling the flag of an open cell leaves the flags as they are.
pub proof fn lemma_toggle_open_keeps_flags(m: BoardModel, p: Position)
    requires
        m.opened.contains(p),
    ensures
        m.toggle_flag_spec(p).flagged == m.flagged,
{
}

/// Toggling the flag of a hidden cell twice restores the flags.
pub proof fn lemma_toggle_twice(m: BoardModel, p: Position)
    requires
        !m.opened.contains(p),
    ensures
        m.toggle_flag_spec(p).toggle_flag_spec(p).flagged == m.flagged,
{
    let once = m.toggle_flag_spec(p);
    assert(once.toggle_flag_spec(p).flagged =~= m.flagged);
}

/// The count of mines around a cell is the number of its neighbours that
/// hold one: at most 8, at most 5 on an edge and at most 3 in a corner.
pub proof fn lemma_neighbouring_mines_range(m: BoardModel, p: Position)
    requires
        m.in_bounds(p),
    ensures
        m.neighbouring_mines(p) <= m.neighbours(p).len() <= 8,
        (p.0 == 0 || p.0 + 1 == m.width || p.1 == 0 || p.1 + 1 == m.height)
            ==> m.neighbouring_mines(p) <= 5,
        (p.0 == 0 || p.0 + 1 == m.width) && (p.1 == 0 || p.1 + 1 == m.height)
            ==> m.neighbouring_mines(p) <= 3,
{
    m.neighbours(p).lemma_filter_len(|q: Position| m.mines.contains(q));
    reveal_with_fuel(neighbours_from, 10);
}

} // verus!
