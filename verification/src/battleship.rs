//! A battleship board: a 20×20 grid of cells and a count of the boats still to
//! place for each boat length from 1 to 4.
use vstd::prelude::*;
use crate::text::{decimal, digit_char, push_char, push_decimal, split, chars_of, split_chars, lemma_split_nonempty,
    lemma_split_no_sep, lemma_split_join, lemma_split_append_plain};

verus! {

broadcast use vstd::seq::group_seq_axioms;

/// The side of the board.
pub const BSIZE: usize = 20;

/// A board: `boats[l - 1]` boats of length `l` are still to be placed, and a
/// cell holds 1 where a boat lies and 0 where the sea is.
pub struct Board {
    pub boats: [u8; 4],
    pub data: [[u8; 20]; 20],
}

#[derive(Debug)]
pub enum Error {
    Overlap,
    OutOfBounds,
    BoatCount,
}

/// A boat of the given length, laid downwards or rightwards from its position.
pub enum Boat {
    Vertical(usize),
    Horizontal(usize),
}

impl Boat {
    pub open spec fn len(self) -> int {
        match self {
            Boat::Vertical(size) => size as int,
            Boat::Horizontal(size) => size as int,
        }
    }

    /// The length of the boat.
    pub fn get_size(&self) -> (n: usize)
        ensures
            n == self.len(),
    {
        match self {
            Boat::Vertical(size) => *size,
            Boat::Horizontal(size) => *size,
        }
    }
}

/// The cells of the board as rows of cells.
pub open spec fn grid(data: [[u8; 20]; 20]) -> Seq<Seq<u8>> {
    Seq::new(20, |r: int| data@[r]@)
}

/// The coordinate along which the boat extends.
pub open spec fn along(boat: Boat, pos: (usize, usize)) -> int {
    match boat {
        Boat::Vertical(_) => pos.0 as int,
        Boat::Horizontal(_) => pos.1 as int,
    }
}

/// The `i`-th cell of a boat placed at `pos`.
pub open spec fn boat_cell(boat: Boat, pos: (usize, usize), i: int) -> (int, int) {
    match boat {
        Boat::Vertical(_) => (pos.0 + i, pos.1 as int),
        Boat::Horizontal(_) => (pos.0 as int, pos.1 + i),
    }
}

/// Whether cell `(r, c)` is one of the first `k` cells of the boat.
pub open spec fn covers(boat: Boat, pos: (usize, usize), k: int, r: int, c: int) -> bool {
    match boat {
        Boat::Vertical(_) => c == pos.1 && pos.0 <= r < pos.0 + k,
        Boat::Horizontal(_) => r == pos.0 && pos.1 <= c < pos.1 + k,
    }
}

/// The grid with the first `k` cells of the boat set to 1.
pub open spec fn marked(data: [[u8; 20]; 20], boat: Boat, pos: (usize, usize), k: int) -> Seq<Seq<u8>> {
    Seq::new(20, |r: int| Seq::new(20, |c: int| if covers(boat, pos, k, r, c) { 1u8 } else { data@[r]@[c] }))
}

/// Whether the `i`-th cell of the boat already holds a boat.
pub open spec fn blocked(data: [[u8; 20]; 20], boat: Boat, pos: (usize, usize), i: int) -> bool {
    data@[boat_cell(boat, pos, i).0]@[boat_cell(boat, pos, i).1] == 1
}

/// The index of the first cell among `i..n` that already holds a boat, or `n`.
pub open spec fn first_blocked(data: [[u8; 20]; 20], boat: Boat, pos: (usize, usize), i: int, n: int) -> int
    decreases n - i,
{
    if i >= n {
        n
    } else if blocked(data, boat, pos, i) {
        i
    } else {
        first_blocked(data, boat, pos, i + 1, n)
    }
}

proof fn lemma_first_blocked(data: [[u8; 20]; 20], boat: Boat, pos: (usize, usize), i: int, n: int)
    requires
        i <= n,
    ensures
        i <= first_blocked(data, boat, pos, i, n) <= n,
        forall|j: int| i <= j < first_blocked(data, boat, pos, i, n) ==> !blocked(data, boat, pos, j),
        first_blocked(data, boat, pos, i, n) < n ==> blocked(data, boat, pos, first_blocked(data, boat, pos, i, n)),
    decreases n - i,
{
    if i < n && !blocked(data, boat, pos, i) {
        lemma_first_blocked(data, boat, pos, i + 1, n);
    }
}

/// Whether `add_boat` reports the position as out of the board.
pub open spec fn out_of_bounds(boat: Boat, pos: (usize, usize)) -> bool {
    pos.0 >= BSIZE || pos.1 >= BSIZE || boat.len() + along(boat, pos) > BSIZE
}

/// Whether `add_boat` runs without a panic: the length must not overflow when
/// added to the position, and a boat that fits must have a length from 1 to 4.
pub open spec fn add_boat_defined(boat: Boat, pos: (usize, usize)) -> bool {
    pos.0 < BSIZE && pos.1 < BSIZE ==> {
        &&& boat.len() + along(boat, pos) <= usize::MAX
        &&& boat.len() + along(boat, pos) <= BSIZE ==> 1 <= boat.len() <= 4
    }
}

impl Board {
    /// Creates an empty board with the given boat counts, one per length 1 to 4.
    pub fn new(boats: &[u8]) -> (b: Board)
        requires
            boats@.len() == 4,
        ensures
            b.boats@ == boats@,
            forall|r: int, c: int| 0 <= r < 20 && 0 <= c < 20 ==> b.data@[r]@[c] == 0,
    {
        let arr: [u8; 4] = [boats[0], boats[1], boats[2], boats[3]];
        let data: [[u8; 20]; 20] = [[0u8; 20]; 20];
        assert(arr@ =~= boats@);
        Board { boats: arr, data }
    }

    /// Places a boat with its first cell at `pos` (row, column).
    ///
    /// Fails with `OutOfBounds` when the position or the boat's last cell lies
    /// off the board, and with `BoatCount` when no boat of that length is left;
    /// the board is then unchanged. Cells are marked one by one, so when a cell
    /// already holds a boat the call fails with `Overlap` and the cells before
    /// it stay marked. On success the boat's cells are marked and its count drops by one.
    pub fn add_boat(&mut self, boat: Boat, pos: (usize, usize)) -> (r: Result<&mut Self, Error>)
        requires
            add_boat_defined(boat, pos),
        ensures
            out_of_bounds(boat, pos) ==> (r matches Err(Error::OutOfBounds)) && *final(self) == *old(self),
            !out_of_bounds(boat, pos) && old(self).boats@[boat.len() - 1] == 0
                ==> (r matches Err(Error::BoatCount)) && *final(self) == *old(self),
            !out_of_bounds(boat, pos) && old(self).boats@[boat.len() - 1] != 0 ==> {
                let k = first_blocked(old(self).data, boat, pos, 0, boat.len());
                if k < boat.len() {
                    &&& r matches Err(Error::Overlap)
                    &&& final(self).boats == old(self).boats
                    &&& grid(final(self).data) == marked(old(self).data, boat, pos, k)
                } else {
                    &&& r is Ok
                    &&& (*r->Ok_0).boats@ == old(self).boats@.update(
                        boat.len() - 1,
                        (old(self).boats@[boat.len() - 1] - 1) as u8,
                    )
                    &&& grid((*r->Ok_0).data) == marked(old(self).data, boat, pos, boat.len())
                    &&& *final(self) == *final(r->Ok_0)
                }
            },
    {
        if pos.0 >= BSIZE || pos.1 >= BSIZE {
            return Err(Error::OutOfBounds);
        }
        let ghost old_data = self.data;
        let size = boat.get_size();
        let vertical = match boat {
            Boat::Vertical(_) => true,
            Boat::Horizontal(_) => false,
        };
        let start = if vertical { pos.0 } else { pos.1 };
        if size + start > BSIZE {
            return Err(Error::OutOfBounds);
        } else if self.boats[size - 1] == 0 {
            return Err(Error::BoatCount);
        }
        proof {
            lemma_first_blocked(old_data, boat, pos, 0, size as int);
            assert forall|rr: int| 0 <= rr < 20 implies
                #[trigger] grid(self.data)[rr] =~= marked(old_data, boat, pos, 0)[rr] by {}
            assert(grid(self.data) =~= marked(old_data, boat, pos, 0));
        }
        let mut i: usize = 0;
        while i < size
            invariant
                size == boat.len(),
                start == along(boat, pos),
                vertical == (boat is Vertical),
                size + start <= BSIZE,
                pos.0 < BSIZE,
                pos.1 < BSIZE,
                1 <= size <= 4,
                i <= size,
                i <= first_blocked(old_data, boat, pos, 0, size as int),
                forall|j: int| 0 <= j < first_blocked(old_data, boat, pos, 0, size as int)
                    ==> !blocked(old_data, boat, pos, j),
                first_blocked(old_data, boat, pos, 0, size as int) < size
                    ==> blocked(old_data, boat, pos, first_blocked(old_data, boat, pos, 0, size as int)),
                self.boats == old(self).boats,
                old(self).boats@[size - 1] != 0,
                old_data == old(self).data,
                grid(self.data) == marked(old_data, boat, pos, i as int),
            decreases size - i,
        {
            let (r, c) = if vertical { (pos.0 + i, pos.1) } else { (pos.0, pos.1 + i) };
            assert((r as int, c as int) == boat_cell(boat, pos, i as int));
            assert(self.data@[r as int]@[c as int] == old_data@[r as int]@[c as int]) by {
                assert(grid(self.data)[r as int][c as int] == marked(old_data, boat, pos, i as int)[r as int][c as int]);
            }
            let v = self.data[r][c];
            if v == 1 {
                assert(blocked(old_data, boat, pos, i as int));
                assert(first_blocked(old_data, boat, pos, 0, size as int) == i);
                return Err(Error::Overlap);
            }
            let ghost prev = self.data;
            let mut row = self.data[r];
            row[c] = 1;
            self.data[r] = row;
            i = i + 1;
            proof {
                assert(self.data@ == prev@.update(r as int, row));
                assert(row@ == prev@[r as int]@.update(c as int, 1u8));
                let g_prev = marked(old_data, boat, pos, (i - 1) as int);
                assert forall|rr: int| 0 <= rr < 20 implies
                    #[trigger] grid(self.data)[rr] =~= marked(old_data, boat, pos, i as int)[rr] by {
                    assert(grid(prev)[rr] == g_prev[rr]);
                    assert forall|cc: int| 0 <= cc < 20 implies
                        grid(self.data)[rr][cc] == marked(old_data, boat, pos, i as int)[rr][cc] by {
                        assert(grid(prev)[rr][cc] == g_prev[rr][cc]);
                        if rr == r && cc == c {
                            assert(covers(boat, pos, i as int, rr, cc));
                        } else {
                            assert(covers(boat, pos, i as int, rr, cc) == covers(boat, pos, (i - 1) as int, rr, cc));
                        }
                    }
                }
                assert(grid(self.data) =~= marked(old_data, boat, pos, i as int));
            }
        }
        let b = size - 1;
        self.boats[b] = self.boats[b] - 1;
        assert(first_blocked(old_data, boat, pos, 0, size as int) == size);
        assert(self.boats@ == old(self).boats@.update(b as int, (old(self).boats@[b as int] - 1) as u8));
        Ok(self)
    }
}


/// The boat counts as decimal numbers separated by single spaces.
pub open spec fn counts_text(s: Seq<u8>) -> Seq<char>
    decreases s.len(),
{
    if s.len() == 0 {
        Seq::empty()
    } else if s.len() == 1 {
        decimal(s[0] as nat)
    } else {
        counts_text(s.drop_last()) + seq![' '] + decimal(s.last() as nat)
    }
}

/// One row: `"- "` for an empty cell and `"B "` for any other value.
pub open spec fn row_text(row: Seq<u8>) -> Seq<char>
    decreases row.len(),
{
    if row.len() == 0 {
        Seq::empty()
    } else {
        row_text(row.drop_last()) + (if row.last() == 0 { seq!['-', ' '] } else { seq!['B', ' '] })
    }
}

/// The rows, each followed by a newline.
pub open spec fn rows_text(rows: Seq<Seq<u8>>) -> Seq<char>
    decreases rows.len(),
{
    if rows.len() == 0 {
        Seq::empty()
    } else {
        rows_text(rows.drop_last()) + row_text(rows.last()) + seq!['\n']
    }
}

/// The saved form of a board: the boat counts on the first line, then the grid.
pub open spec fn board_text(b: Board) -> Seq<char> {
    counts_text(b.boats@) + seq!['\n'] + rows_text(grid(b.data))
}

/// The value of a run of decimal digits.
pub open spec fn digits_value(d: Seq<char>) -> nat
    decreases d.len(),
{
    if d.len() == 0 {
        0
    } else {
        digits_value(d.drop_last()) * 10 + ((d.last() as int - '0' as int) as nat)
    }
}

pub open spec fn is_digit(c: char) -> bool {
    '0' <= c <= '9'
}

pub open spec fn all_digits(d: Seq<char>) -> bool {
    forall|i: int| 0 <= i < d.len() ==> is_digit(#[trigger] d[i])
}

/// A token without its optional leading `+`.
pub open spec fn unsigned_digits(tok: Seq<char>) -> Seq<char> {
    if tok.len() > 0 && tok[0] == '+' { tok.drop_first() } else { tok }
}

/// The number that `str::parse::<u8>` reads from a token: an optional `+`,
/// then at least one decimal digit, with a value of at most 255.
pub open spec fn parse_u8(tok: Seq<char>) -> Option<u8> {
    let d = unsigned_digits(tok);
    if d.len() > 0 && all_digits(d) && digits_value(d) <= 255 {
        Some(digits_value(d) as u8)
    } else {
        None
    }
}

/// Whether `Board::from` can read `s`: the first line holds exactly four boat
/// counts, each a number from 0 to 255.
pub open spec fn board_text_readable(s: Seq<char>) -> bool {
    let lines = split(s, '\n');
    let header = split(lines[0], ' ');
    &&& header.len() == 4
    &&& forall|k: int| 0 <= k < 4 ==> (#[trigger] parse_u8(header[k])) is Some
}

/// The cell that `Board::from` stores at `(r, c)`: 1 when line `r + 1` of the
/// text has a `c`-th space-separated token and that token is `"B"`, else 0.
pub open spec fn read_cell(s: Seq<char>, r: int, c: int) -> u8 {
    let lines = split(s, '\n');
    if r + 1 < lines.len() && c < split(lines[r + 1], ' ').len() && split(lines[r + 1], ' ')[c] == seq!['B'] {
        1
    } else {
        0
    }
}

fn is_b_token(t: &Vec<char>) -> (b: bool)
    ensures
        b == (t@ == seq!['B']),
{
    if t.len() == 1 && t[0] == 'B' {
        assert(t@ =~= seq!['B']);
        true
    } else {
        false
    }
}

fn parse_u8_token(tok: &Vec<char>) -> (r: Option<u8>)
    ensures
        r == parse_u8(tok@),
{
    let n = tok.len();
    let start: usize = if n > 0 && tok[0] == '+' { 1 } else { 0 };
    let ghost d = unsigned_digits(tok@);
    if start >= n {
        return None;
    }
    let mut value: u32 = 0;
    let mut over = false;
    let mut i = start;
    while i < n
        invariant
            start <= i <= n,
            n == tok@.len(),
            d == unsigned_digits(tok@),
            start == tok@.len() - d.len(),
            d == tok@.subrange(start as int, n as int),
            forall|j: int| 0 <= j < i - start ==> is_digit(#[trigger] d[j]),
            !over ==> value as nat == digits_value(d.subrange(0, i - start)) && value <= 255,
            over ==> digits_value(d.subrange(0, i - start)) > 255,
        decreases n - i,
    {
        let c = tok[i];
        if !('0' <= c && c <= '9') {
            assert(!is_digit(d[i - start]));
            assert(!all_digits(d));
            return None;
        }
        let dv = (c as u32) - ('0' as u32);
        proof {
            assert(d.subrange(0, i + 1 - start).drop_last() =~= d.subrange(0, i - start));
        }
        if !over {
            value = value * 10 + dv;
            if value > 255 {
                over = true;
            }
        }
        i = i + 1;
    }
    assert(d.subrange(0, n - start) =~= d);
    if over {
        None
    } else {
        Some(value as u8)
    }
}

impl Board {
    /// The boat counts separated by single spaces, as the first line of the saved form.
    pub(crate) fn boat_to_string(boats: &[u8]) -> (s: String)
        ensures
            s@ == counts_text(boats@),
    {
        let mut s = String::new();
        let n = boats.len();
        let mut i: usize = 0;
        while i < n
            invariant
                n == boats@.len(),
                i <= n,
                s@ == counts_text(boats@.subrange(0, i as int)),
            decreases n - i,
        {
            proof {
                assert(boats@.subrange(0, i + 1).drop_last() =~= boats@.subrange(0, i as int));
            }
            if i > 0 {
                push_char(&mut s, ' ');
            }
            push_decimal(&mut s, boats[i] as u64);
            proof {
                if i == 0 {
                    assert(s@ =~= decimal(boats@[0] as nat));
                }
            }
            i = i + 1;
        }
        assert(boats@.subrange(0, n as int) =~= boats@);
        s
    }

    /// The saved form of the board: the boat counts, a newline, then every row
    /// as `"- "` or `"B "` per cell followed by a newline.
    pub fn to_string(&self) -> (s: String)
        ensures
            s@ == board_text(*self),
    {
        let mut s = Self::boat_to_string(&self.boats);
        push_char(&mut s, '\n');
        let ghost g = grid(self.data);
        let mut r: usize = 0;
        while r < 20
            invariant
                r <= 20,
                g == grid(self.data),
                s@ == counts_text(self.boats@) + seq!['\n'] + rows_text(g.subrange(0, r as int)),
            decreases 20 - r,
        {
            let row = self.data[r];
            let ghost before = s@;
            let mut c: usize = 0;
            while c < 20
                invariant
                    c <= 20,
                    row@ == g[r as int],
                    s@ == before + row_text(row@.subrange(0, c as int)),
                decreases 20 - c,
            {
                proof {
                    assert(row@.subrange(0, c + 1).drop_last() =~= row@.subrange(0, c as int));
                }
                if row[c] == 0 {
                    push_char(&mut s, '-');
                } else {
                    push_char(&mut s, 'B');
                }
                push_char(&mut s, ' ');
                c = c + 1;
            }
            push_char(&mut s, '\n');
            proof {
                assert(row@.subrange(0, 20) =~= row@);
                assert(g.subrange(0, r + 1).drop_last() =~= g.subrange(0, r as int));
            }
            r = r + 1;
        }
        assert(g.subrange(0, 20) =~= g);
        s
    }

    /// Reads a board from its saved form: four boat counts on the first line,
    /// then one line per row of space-separated cells, where `"B"` marks a
    /// boat and anything else the sea. Rows and cells past the 20th, and the
    /// empty token after a row's last space, are not read; missing ones are sea.
    pub fn from(s: String) -> (b: Board)
        requires
            board_text_readable(s@),
        ensures
            b.boats@ == split(split(s@, '\n')[0], ' ').map_values(|t: Seq<char>| parse_u8(t)->Some_0),
            forall|r: int, c: int| 0 <= r < 20 && 0 <= c < 20 ==> #[trigger] b.data@[r]@[c] == read_cell(s@, r, c),
    {
        let chars = chars_of(s.as_str());
        let lines = split_chars(&chars, '\n');
        proof { lemma_split_nonempty(s@, '\n'); }
        let header = split_chars(&lines[0], ' ');
        let mut counts: Vec<u8> = Vec::new();
        let mut k: usize = 0;
        while k < 4
            invariant
                k <= 4,
                header@.len() == 4,
                forall|j: int| 0 <= j < 4 ==> (#[trigger] header@[j])@ == split(split(s@, '\n')[0], ' ')[j],
                forall|j: int| 0 <= j < 4 ==> (#[trigger] parse_u8(split(split(s@, '\n')[0], ' ')[j])) is Some,
                counts@.len() == k,
                forall|j: int| 0 <= j < k ==> #[trigger] counts@[j] == parse_u8(header@[j]@)->Some_0,
            decreases 4 - k,
        {
            let v = parse_u8_token(&header[k]);
            match v {
                Some(x) => counts.push(x),
                None => {
                    assert(false);
                },
            }
            k = k + 1;
        }
        let mut board = Board::new(counts.as_slice());
        let ghost lv = split(s@, '\n');
        let nl = lines.len();
        let mut r: usize = 0;
        while r < 20
            invariant
                nl == lines@.len(),
                nl == lv.len(),
                lv == split(s@, '\n'),
                forall|q: int| 0 <= q < nl ==> (#[trigger] lines@[q])@ == lv[q],
                r <= 20,
                board.boats@ == counts@,
                forall|rr: int, c: int| 0 <= rr < 20 && 0 <= c < 20 ==> #[trigger] board.data@[rr]@[c]
                    == (if rr < r { read_cell(s@, rr, c) } else { 0u8 }),
            decreases 20 - r,
        {
            if r + 1 < nl {
                let cells = split_chars(&lines[r + 1], ' ');
                let nc = cells.len();
                let ghost toks = split(lv[r + 1], ' ');
                let mut c: usize = 0;
                while c < 20
                    invariant
                        nc == cells@.len(),
                        nc == toks.len(),
                        toks == split(lv[r + 1], ' '),
                        lv == split(s@, '\n'),
                        r + 1 < nl,
                        nl == lv.len(),
                        forall|p: int| 0 <= p < nc ==> (#[trigger] cells@[p])@ == toks[p],
                        r < 20,
                        c <= 20,
                        board.boats@ == counts@,
                        forall|rr: int, cc: int| 0 <= rr < 20 && 0 <= cc < 20 ==> #[trigger] board.data@[rr]@[cc]
                            == (if rr < r || (rr == r && cc < c) { read_cell(s@, rr, cc) } else { 0u8 }),
                    decreases 20 - c,
                {
                    let isb = c < nc && is_b_token(&cells[c]);
                    let ghost prev = board.data;
                    let mut row = board.data[r];
                    row[c] = if isb { 1 } else { 0 };
                    board.data[r] = row;
                    proof {
                        assert(isb == (c < toks.len() && toks[c as int] == seq!['B']));
                        assert forall|rr: int, cc: int| 0 <= rr < 20 && 0 <= cc < 20 implies #[trigger] board.data@[rr]@[cc]
                            == (if rr < r || (rr == r && cc < c + 1) { read_cell(s@, rr, cc) } else { 0u8 }) by {
                            if rr == r && cc == c {
                            } else if rr == r {
                                assert(board.data@[rr]@[cc] == prev@[rr]@[cc]);
                            } else {
                                assert(board.data@[rr] == prev@[rr]);
                            }
                        }
                    }
                    c = c + 1;
                }
            }
            r = r + 1;
        }
        proof {
            assert(counts@ =~= split(split(s@, '\n')[0], ' ').map_values(|t: Seq<char>| parse_u8(t)->Some_0));
        }
        board
    }
}


/// The token that the saved form writes for a cell.
pub open spec fn cell_token(v: u8) -> Seq<char> {
    if v == 0 { seq!['-'] } else { seq!['B'] }
}

proof fn lemma_digit_char(d: nat)
    requires
        d < 10,
    ensures
        digit_char(d) as int - '0' as int == d,
        is_digit(digit_char(d)),
{
}

proof fn lemma_decimal_digits(n: nat)
    ensures
        decimal(n).len() > 0,
        all_digits(decimal(n)),
        digits_value(decimal(n)) == n,
    decreases n,
{
    lemma_digit_char(n % 10);
    if n < 10 {
        let d = decimal(n);
        assert(d.drop_last() =~= Seq::<char>::empty());
        assert(n % 10 == n);
        assert(d.last() == digit_char(n));
        assert(digits_value(d.drop_last()) == 0);
    } else {
        lemma_decimal_digits(n / 10);
        let d = decimal(n);
        assert(d.drop_last() =~= decimal(n / 10));
        assert(d.last() == digit_char(n % 10));
        assert(digits_value(d) == digits_value(decimal(n / 10)) * 10 + (n % 10));
        assert((n / 10) * 10 + n % 10 == n);
        assert forall|i: int| 0 <= i < d.len() implies is_digit(#[trigger] d[i]) by {
            if i < d.len() - 1 {
                assert(d[i] == decimal(n / 10)[i]);
            }
        }
    }
}

proof fn lemma_parse_decimal(n: u8)
    ensures
        parse_u8(decimal(n as nat)) == Some(n),
{
    lemma_decimal_digits(n as nat);
    assert(is_digit(decimal(n as nat)[0]));
    assert(unsigned_digits(decimal(n as nat)) == decimal(n as nat));
}

proof fn lemma_counts_text_chars(s: Seq<u8>)
    ensures
        forall|i: int| 0 <= i < counts_text(s).len() ==> #[trigger] counts_text(s)[i] != '\n',
    decreases s.len(),
{
    if s.len() == 1 {
        lemma_decimal_digits(s[0] as nat);
        assert forall|i: int| 0 <= i < counts_text(s).len() implies #[trigger] counts_text(s)[i] != '\n' by {
            assert(is_digit(decimal(s[0] as nat)[i]));
        }
    } else if s.len() > 1 {
        lemma_counts_text_chars(s.drop_last());
        lemma_decimal_digits(s.last() as nat);
        let a = counts_text(s.drop_last());
        let d = decimal(s.last() as nat);
        assert forall|i: int| 0 <= i < counts_text(s).len() implies #[trigger] counts_text(s)[i] != '\n' by {
            if i < a.len() {
                assert(counts_text(s)[i] == a[i]);
            } else if i > a.len() {
                assert(counts_text(s)[i] == d[i - a.len() - 1]);
                assert(is_digit(d[i - a.len() - 1]));
            }
        }
    }
}

proof fn lemma_split_counts(s: Seq<u8>)
    requires
        s.len() >= 1,
    ensures
        split(counts_text(s), ' ') == s.map_values(|v: u8| decimal(v as nat)),
    decreases s.len(),
{
    lemma_decimal_digits(s.last() as nat);
    let d = decimal(s.last() as nat);
    assert forall|i: int| 0 <= i < d.len() implies d[i] != ' ' by {
        assert(is_digit(d[i]));
    }
    lemma_split_no_sep(d, ' ');
    if s.len() == 1 {
        assert(s.map_values(|v: u8| decimal(v as nat)) =~= seq![d]);
    } else {
        lemma_split_counts(s.drop_last());
        lemma_split_join(counts_text(s.drop_last()), d, ' ');
        assert(s.map_values(|v: u8| decimal(v as nat))
            =~= s.drop_last().map_values(|v: u8| decimal(v as nat)) + seq![d]);
    }
}

proof fn lemma_row_text_chars(row: Seq<u8>)
    ensures
        forall|i: int| 0 <= i < row_text(row).len() ==> #[trigger] row_text(row)[i] != '\n',
    decreases row.len(),
{
    if row.len() > 0 {
        lemma_row_text_chars(row.drop_last());
        let a = row_text(row.drop_last());
        assert forall|i: int| 0 <= i < row_text(row).len() implies #[trigger] row_text(row)[i] != '\n' by {
            if i < a.len() {
                assert(row_text(row)[i] == a[i]);
            }
        }
    }
}

proof fn lemma_split_row(row: Seq<u8>)
    ensures
        split(row_text(row), ' ') == row.map_values(|v: u8| cell_token(v)).push(Seq::<char>::empty()),
    decreases row.len(),
{
    if row.len() == 0 {
        assert(row.map_values(|v: u8| cell_token(v)) =~= Seq::<Seq<char>>::empty());
        assert(split(Seq::<char>::empty(), ' ') =~= seq![Seq::<char>::empty()]);
    } else {
        let a = row_text(row.drop_last());
        let tok = cell_token(row.last());
        lemma_split_row(row.drop_last());
        lemma_split_append_plain(a, tok, ' ');
        lemma_split_join(a + tok, Seq::<char>::empty(), ' ');
        assert(row_text(row) =~= a + tok + seq![' '] + Seq::<char>::empty());
        assert(split(Seq::<char>::empty(), ' ') =~= seq![Seq::<char>::empty()]);
        let prev = row.drop_last().map_values(|v: u8| cell_token(v));
        assert(split(a, ' ').last() == Seq::<char>::empty());
        assert(Seq::<char>::empty() + tok =~= tok);
        assert(split(a + tok, ' ') =~= prev.push(tok));
        assert(row.map_values(|v: u8| cell_token(v)) =~= prev.push(tok));
        assert(split(row_text(row), ' ') =~= prev.push(tok).push(Seq::<char>::empty()));
    }
}

proof fn lemma_split_rows(rows: Seq<Seq<u8>>)
    ensures
        split(rows_text(rows), '\n') == rows.map_values(|r: Seq<u8>| row_text(r)).push(Seq::<char>::empty()),
    decreases rows.len(),
{
    if rows.len() == 0 {
        assert(rows.map_values(|r: Seq<u8>| row_text(r)) =~= Seq::<Seq<char>>::empty());
        assert(split(Seq::<char>::empty(), '\n') =~= seq![Seq::<char>::empty()]);
    } else {
        let a = rows_text(rows.drop_last());
        let t = row_text(rows.last());
        lemma_split_rows(rows.drop_last());
        lemma_row_text_chars(rows.last());
        lemma_split_append_plain(a, t, '\n');
        lemma_split_join(a + t, Seq::<char>::empty(), '\n');
        assert(rows_text(rows) =~= a + t + seq!['\n'] + Seq::<char>::empty());
        assert(split(Seq::<char>::empty(), '\n') =~= seq![Seq::<char>::empty()]);
        let prev = rows.drop_last().map_values(|r: Seq<u8>| row_text(r));
        assert(Seq::<char>::empty() + t =~= t);
        assert(split(a + t, '\n') =~= prev.push(t));
        assert(rows.map_values(|r: Seq<u8>| row_text(r)) =~= prev.push(t));
    }
}

/// Law: reading back the saved form of a board gives the board again (boat
/// counts and cells) when every cell is 0 or 1, which is what `new` and
/// `add_boat` produce: `Board::from(b.to_string())` equals `b`.
pub proof fn lemma_board_text_reads_back(b: Board)
    requires
        forall|r: int, c: int| 0 <= r < 20 && 0 <= c < 20 ==> #[trigger] b.data@[r]@[c] <= 1,
    ensures
        board_text_readable(board_text(b)),
        split(split(board_text(b), '\n')[0], ' ').map_values(|t: Seq<char>| parse_u8(t)->Some_0) == b.boats@,
        forall|r: int, c: int| 0 <= r < 20 && 0 <= c < 20 ==> #[trigger] read_cell(board_text(b), r, c) == b.data@[r]@[c],
{
    let g = grid(b.data);
    let ct = counts_text(b.boats@);
    lemma_counts_text_chars(b.boats@);
    lemma_split_no_sep(ct, '\n');
    lemma_split_join(ct, rows_text(g), '\n');
    lemma_split_rows(g);
    let lines = split(board_text(b), '\n');
    assert(lines == seq![ct] + g.map_values(|r: Seq<u8>| row_text(r)).push(Seq::<char>::empty()));
    assert(lines[0] == ct);
    lemma_split_counts(b.boats@);
    let header = split(ct, ' ');
    assert(header.len() == 4);
    assert forall|k: int| 0 <= k < 4 implies (#[trigger] parse_u8(header[k])) == Some(b.boats@[k]) by {
        lemma_parse_decimal(b.boats@[k]);
    }
    assert(header.map_values(|t: Seq<char>| parse_u8(t)->Some_0) =~= b.boats@);
    assert forall|r: int, c: int| 0 <= r < 20 && 0 <= c < 20 implies #[trigger] read_cell(board_text(b), r, c)
        == b.data@[r]@[c] by {
        assert(lines.len() == 22);
        assert(lines[r + 1] == row_text(g[r]));
        lemma_split_row(g[r]);
        assert(g[r] == b.data@[r]@);
        let toks = split(lines[r + 1], ' ');
        assert(toks[c] == cell_token(b.data@[r]@[c]));
        if b.data@[r]@[c] == 0 {
            assert(toks[c] != seq!['B']) by {
                assert(toks[c][0] == '-');
            }
        }
    }
}

} // verus!
