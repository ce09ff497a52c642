use vstd::prelude::*;
use vstd::std_specs::iter::IteratorSpec;
use crate::reward::AgentId;
use crate::world::{Position, WorldState, WorldStateView};

verus! {

broadcast use vstd::string::group_string_axioms;

/// The kind of a grid cell, read from its token.
#[derive(Clone, Copy, Debug, PartialEq, Eq, Structural)]
pub enum Tile {
    Floor,
    Wall,
    Gem,
    Exit,
    Void,
    Start { agent_id: AgentId },
}

/// One token of the level text: its cell (row and column, both from 0) and the
/// range of characters it spans in the text.
#[derive(Clone, Copy, Debug, PartialEq, Eq, Structural)]
pub struct CellSpan {
    pub row: usize,
    pub col: usize,
    pub start: usize,
    pub end: usize,
}

/// What has been read of the level text so far: the tokens, the number of
/// tokens of each non-blank line, whether the last character read belongs to a
/// token, and whether the current line already holds a token.
pub struct ScanView {
    pub cells: Seq<CellSpan>,
    pub widths: Seq<usize>,
    pub in_token: bool,
    pub line_open: bool,
}

/// Characters that separate tokens within a line.
pub open spec fn is_blank(c: char) -> bool {
    c == ' ' || c == '\t' || c == '\r'
}

pub open spec fn scan_start() -> ScanView {
    ScanView { cells: Seq::empty(), widths: Seq::empty(), in_token: false, line_open: false }
}

/// Reading the character `c` found at index `i` of the text.
pub open spec fn scan_step(st: ScanView, c: char, i: int) -> ScanView {
    if c == '\n' {
        ScanView { in_token: false, line_open: false, ..st }
    } else if is_blank(c) {
        ScanView { in_token: false, ..st }
    } else if st.in_token {
        let last = st.cells.last();
        ScanView {
            cells: st.cells.update(st.cells.len() - 1, CellSpan { end: (i + 1) as usize, ..last }),
            ..st
        }
    } else if st.line_open {
        let w = st.widths.last();
        ScanView {
            cells: st.cells.push(
                CellSpan { row: (st.widths.len() - 1) as usize, col: w, start: i as usize, end: (i + 1) as usize },
            ),
            widths: st.widths.update(st.widths.len() - 1, (w + 1) as usize),
            in_token: true,
            line_open: true,
        }
    } else {
        ScanView {
            cells: st.cells.push(
                CellSpan { row: st.widths.len() as usize, col: 0, start: i as usize, end: (i + 1) as usize },
            ),
            widths: st.widths.push(1),
            in_token: true,
            line_open: true,
        }
    }
}

/// The tokens of a text: maximal runs of characters that are neither blanks
/// nor line breaks; lines without tokens are not rows of the grid.
pub open spec fn scan(s: Seq<char>) -> ScanView
    decreases s.len(),
{
    if s.len() == 0 {
        scan_start()
    } else {
        scan_step(scan(s.drop_last()), s.last(), s.len() - 1)
    }
}

pub open spec fn is_digit(c: char) -> bool {
    '0' <= c && c <= '9'
}

pub open spec fn all_digits(s: Seq<char>) -> bool {
    forall|i: int| 0 <= i < s.len() ==> is_digit(#[trigger] s[i])
}

/// The number written by a sequence of decimal digits.
pub open spec fn digits_value(s: Seq<char>) -> nat
    decreases s.len(),
{
    if s.len() == 0 {
        0
    } else {
        digits_value(s.drop_last()) * 10 + ((s.last() as nat) - ('0' as nat)) as nat
    }
}

/// The tile a token stands for: `.` floor, `@` wall, `G` gem, `X` exit, `V`
/// void, and `S` followed by the decimal agent number for a start tile.
pub open spec fn tile_of(t: Seq<char>) -> Option<Tile> {
    if t == seq!['.'] {
        Some(Tile::Floor)
    } else if t == seq!['@'] {
        Some(Tile::Wall)
    } else if t == seq!['G'] {
        Some(Tile::Gem)
    } else if t == seq!['X'] {
        Some(Tile::Exit)
    } else if t == seq!['V'] {
        Some(Tile::Void)
    } else if t.len() >= 2 && t[0] == 'S' && all_digits(t.drop_first()) && digits_value(
        t.drop_first(),
    ) <= usize::MAX {
        Some(Tile::Start { agent_id: digits_value(t.drop_first()) as usize })
    } else {
        None
    }
}

pub open spec fn token(text: Seq<char>, c: CellSpan) -> Seq<char> {
    text.subrange(c.start as int, c.end as int)
}

/// The first row, from `k` on, whose width differs from `w`.
pub open spec fn first_mismatch(widths: Seq<usize>, w: usize, k: int) -> Option<int>
    decreases widths.len() - k,
{
    if k < 0 || k >= widths.len() {
        None
    } else if widths[k] != w {
        Some(k)
    } else {
        first_mismatch(widths, w, k + 1)
    }
}

/// The first cell, from `k` on, whose token is no tile.
pub open spec fn first_invalid(text: Seq<char>, cells: Seq<CellSpan>, k: int) -> Option<int>
    decreases cells.len() - k,
{
    if k < 0 || k >= cells.len() {
        None
    } else if tile_of(token(text, cells[k])) is None {
        Some(k)
    } else {
        first_invalid(text, cells, k + 1)
    }
}

/// The start tiles, in scan order, with their agent number and position.
pub open spec fn starts(text: Seq<char>, cells: Seq<CellSpan>) -> Seq<(AgentId, Position)>
    decreases cells.len(),
{
    if cells.len() == 0 {
        Seq::empty()
    } else {
        let c = cells.last();
        let rest = starts(text, cells.drop_last());
        match tile_of(token(text, c)) {
            Some(Tile::Start { agent_id }) => rest.push((agent_id, (c.row, c.col))),
            _ => rest,
        }
    }
}

/// The number of cells holding tile `t`.
pub open spec fn count_tile(text: Seq<char>, cells: Seq<CellSpan>, t: Tile) -> nat
    decreases cells.len(),
{
    if cells.len() == 0 {
        0
    } else {
        count_tile(text, cells.drop_last(), t) + if tile_of(token(text, cells.last())) == Some(t) {
            1nat
        } else {
            0nat
        }
    }
}

/// The first start tile, before index `k`, with the same agent number as start `k`.
pub open spec fn earlier_same_agent(sts: Seq<(AgentId, Position)>, k: int, j: int) -> Option<int>
    decreases k - j,
{
    if j < 0 || j >= k {
        None
    } else if sts[j].0 == sts[k].0 {
        Some(j)
    } else {
        earlier_same_agent(sts, k, j + 1)
    }
}

/// The first start tile, from `k` on, whose agent number was already taken,
/// with the start tile that took it.
pub open spec fn first_duplicate(sts: Seq<(AgentId, Position)>, k: int) -> Option<(int, int)>
    decreases sts.len() - k,
{
    if k < 0 || k >= sts.len() {
        None
    } else {
        match earlier_same_agent(sts, k, 0) {
            Some(j) => Some((j, k)),
            None => first_duplicate(sts, k + 1),
        }
    }
}

/// Characters allowed in a level name.
pub open spec fn name_char(c: char) -> bool {
    ('a' <= c && c <= 'z') || ('A' <= c && c <= 'Z') || is_digit(c) || c == '_' || c == '-'
        || c == '.'
}

/// A level name is non-empty and made of ASCII letters, digits, `_`, `-` and `.`.
pub open spec fn valid_name(n: Seq<char>) -> bool {
    n.len() > 0 && forall|i: int| 0 <= i < n.len() ==> name_char(#[trigger] n[i])
}

/// The outcome of parsing level text `text` named `name`: the checks are made
/// in order and the first that fails gives the error. Rows and columns count
/// from 0.
pub open spec fn parse_spec(text: Seq<char>, name: Seq<char>) -> Result<WorldStateView, ParseErrorView> {
    let st = scan(text);
    let sts = starts(text, st.cells);
    let n_exits = count_tile(text, st.cells, Tile::Exit);
    if st.widths.len() == 0 {
        Err(ParseErrorView::EmptyWorld)
    } else if !valid_name(name) {
        Err(ParseErrorView::InvalidFileName { file_name: name })
    } else if let Some(k) = first_mismatch(st.widths, st.widths[0], 1) {
        Err(
            ParseErrorView::InconsistentDimensions {
                expected_n_cols: st.widths[0],
                actual_n_cols: st.widths[k],
                row: k as usize,
            },
        )
    } else if let Some(k) = first_invalid(text, st.cells, 0) {
        Err(
            ParseErrorView::InvalidTile {
                tile_str: token(text, st.cells[k]),
                line: st.cells[k].row,
                col: st.cells[k].col,
            },
        )
    } else if let Some((j, k)) = first_duplicate(sts, 0) {
        Err(
            ParseErrorView::DuplicateStartTile {
                agent_id: sts[k].0,
                start1: sts[j].1,
                start2: sts[k].1,
            },
        )
    } else if sts.len() == 0 {
        Err(ParseErrorView::NoAgents)
    } else if n_exits < sts.len() {
        Err(ParseErrorView::NotEnoughExitTiles { n_starts: sts.len() as usize, n_exits: n_exits as usize })
    } else {
        Ok(
            WorldStateView {
                agents_positions: sts.map_values(|p: (AgentId, Position)| p.1),
                gems_collected: Seq::new(count_tile(text, st.cells, Tile::Gem), |i: int| false),
            },
        )
    }
}

/// Mathematical value of a parse error.
pub enum ParseErrorView {
    EmptyWorld,
    NoAgents,
    InvalidTile { tile_str: Seq<char>, line: usize, col: usize },
    InvalidFileName { file_name: Seq<char> },
    NotEnoughExitTiles { n_starts: usize, n_exits: usize },
    DuplicateStartTile { agent_id: AgentId, start1: Position, start2: Position },
    InconsistentDimensions { expected_n_cols: usize, actual_n_cols: usize, row: usize },
}

/// Why a level text was rejected. Rows (`line`, `row`) and columns count from 0.
#[derive(Debug)]
pub enum ParseError {
    /// The text holds no row.
    EmptyWorld,
    /// The grid holds no start tile.
    NoAgents,
    /// The token of the cell at `line`, `col` is no tile.
    InvalidTile { tile_str: String, line: usize, col: usize },
    /// The level name is empty or holds a character other than an ASCII
    /// letter, a digit, `_`, `-` or `.`.
    InvalidFileName { file_name: String },
    /// There are fewer exit tiles than start tiles.
    NotEnoughExitTiles { n_starts: usize, n_exits: usize },
    /// Two start tiles, at `start1` and then at `start2`, give the same agent number.
    DuplicateStartTile { agent_id: AgentId, start1: Position, start2: Position },
    /// Row `row` has `actual_n_cols` cells where the first row has `expected_n_cols`.
    InconsistentDimensions { expected_n_cols: usize, actual_n_cols: usize, row: usize },
}

impl View for ParseError {
    type V = ParseErrorView;

    open spec fn view(&self) -> ParseErrorView {
        match self {
            ParseError::EmptyWorld => ParseErrorView::EmptyWorld,
            ParseError::NoAgents => ParseErrorView::NoAgents,
            ParseError::InvalidTile { tile_str, line, col } => ParseErrorView::InvalidTile {
                tile_str: tile_str@,
                line: *line,
                col: *col,
            },
            ParseError::InvalidFileName { file_name } => ParseErrorView::InvalidFileName {
                file_name: file_name@,
            },
            ParseError::NotEnoughExitTiles { n_starts, n_exits } => ParseErrorView::NotEnoughExitTiles {
                n_starts: *n_starts,
                n_exits: *n_exits,
            },
            ParseError::DuplicateStartTile { agent_id, start1, start2 } => ParseErrorView::DuplicateStartTile {
                agent_id: *agent_id,
                start1: *start1,
                start2: *start2,
            },
            ParseError::InconsistentDimensions { expected_n_cols, actual_n_cols, row } => ParseErrorView::InconsistentDimensions {
                expected_n_cols: *expected_n_cols,
                actual_n_cols: *actual_n_cols,
                row: *row,
            },
        }
    }
}

pub open spec fn result_view(r: Result<WorldState, ParseError>) -> Result<WorldStateView, ParseErrorView> {
    match r {
        Ok(w) => Ok(w@),
        Err(e) => Err(e@),
    }
}

/// Facts about a scan state that hold after reading `n` characters.
pub open spec fn scan_wf(st: ScanView, n: int) -> bool {
    &&& st.in_token ==> st.line_open && st.cells.len() > 0 && st.cells.last().end == n
    &&& st.line_open ==> st.widths.len() > 0
    &&& st.widths.len() <= n
    &&& forall|k: int| 0 <= k < st.widths.len() ==> 1 <= #[trigger] st.widths[k] <= n
    &&& forall|k: int|
        0 <= k < st.cells.len() ==> {
            let c = #[trigger] st.cells[k];
            &&& c.start < c.end <= n
            &&& c.row < st.widths.len()
            &&& c.col < st.widths[c.row as int]
        }
}


/// The characters of `text`, in order.
fn chars_of(text: &str) -> (r: Vec<char>)
    ensures
        r@ == text@,
{
    let mut it = text.chars();
    let mut r: Vec<char> = Vec::new();
    loop
        invariant
            it.obeys_prophetic_iter_laws(),
            r@ + it.remaining() == text@,
            it.decrease() is Some,
        ensures
            r@ == text@,
        decreases it.decrease()->0,
    {
        match it.next() {
            Some(c) => {
                r.push(c);
            },
            None => {
                assert(r@ + it.remaining() =~= r@);
                break;
            },
        }
    }
    r
}

/// The tokens of the text, and the number of tokens of each grid row.
fn scan_chars(text: &Vec<char>) -> (r: (Vec<CellSpan>, Vec<usize>))
    ensures
        r.0@ == scan(text@).cells,
        r.1@ == scan(text@).widths,
        scan_wf(scan(text@), text@.len() as int),
{
    let mut cells: Vec<CellSpan> = Vec::new();
    let mut widths: Vec<usize> = Vec::new();
    let mut in_token = false;
    let mut line_open = false;
    let mut i: usize = 0;
    while i < text.len()
        invariant
            i <= text.len(),
            ({
                let st = scan(text@.subrange(0, i as int));
                &&& cells@ == st.cells
                &&& widths@ == st.widths
                &&& in_token == st.in_token
                &&& line_open == st.line_open
                &&& scan_wf(st, i as int)
            }),
        decreases text.len() - i,
    {
        let ghost prev = text@.subrange(0, i as int);
        assert(text@.subrange(0, i + 1).drop_last() =~= prev);
        let c = text[i];
        if c == '\n' {
            in_token = false;
            line_open = false;
        } else if c == ' ' || c == '\t' || c == '\r' {
            in_token = false;
        } else if in_token {
            let k = cells.len() - 1;
            let last = cells[k];
            cells.set(k, CellSpan { end: i + 1, ..last });
        } else if line_open {
            let k = widths.len() - 1;
            let w = widths[k];
            cells.push(CellSpan { row: k, col: w, start: i, end: i + 1 });
            widths.set(k, w + 1);
            in_token = true;
        } else {
            cells.push(CellSpan { row: widths.len(), col: 0, start: i, end: i + 1 });
            widths.push(1);
            in_token = true;
            line_open = true;
        }
        i = i + 1;
    }
    assert(text@.subrange(0, i as int) =~= text@);
    (cells, widths)
}

proof fn lemma_digits_prefix_le(s: Seq<char>, m: int)
    requires
        0 <= m <= s.len(),
    ensures
        digits_value(s.subrange(0, m)) <= digits_value(s),
    decreases s.len(),
{
    if m < s.len() {
        assert(s.drop_last().subrange(0, m) =~= s.subrange(0, m));
        lemma_digits_prefix_le(s.drop_last(), m);
    } else {
        assert(s.subrange(0, m) =~= s);
    }
}

/// The number written by `text[start..end]`, if it is made of digits only and
/// fits in a `usize`.
fn digits_to_value(text: &Vec<char>, start: usize, end: usize) -> (r: Option<usize>)
    requires
        start <= end <= text@.len(),
    ensures
        ({
            let t = text@.subrange(start as int, end as int);
            r == if all_digits(t) && digits_value(t) <= usize::MAX {
                Some(digits_value(t) as usize)
            } else {
                None
            }
        }),
{
    let ghost t = text@.subrange(start as int, end as int);
    let mut acc: usize = 0;
    let mut k: usize = start;
    while k < end
        invariant
            start <= k <= end <= text@.len(),
            t == text@.subrange(start as int, end as int),
            all_digits(text@.subrange(start as int, k as int)),
            acc as nat == digits_value(text@.subrange(start as int, k as int)),
        decreases end - k,
    {
        let ghost pre = text@.subrange(start as int, k as int);
        let ghost next = text@.subrange(start as int, k + 1);
        assert(next.drop_last() =~= pre);
        let c = text[k];
        if c < '0' || c > '9' {
            assert(t[k - start] == c);
            return None;
        }
        let d: usize = (c as u32 - '0' as u32) as usize;
        let m = acc.checked_mul(10);
        match m {
            None => {
                proof {
                    assert(t.subrange(0, k + 1 - start) =~= next);
                    lemma_digits_prefix_le(t, k + 1 - start);
                }
                return None;
            },
            Some(m) => match m.checked_add(d) {
                None => {
                    proof {
                        assert(t.subrange(0, k + 1 - start) =~= next);
                        lemma_digits_prefix_le(t, k + 1 - start);
                    }
                    return None;
                },
                Some(v) => {
                    acc = v;
                },
            },
        }
        assert(all_digits(next)) by {
            assert forall|i: int| 0 <= i < next.len() implies is_digit(#[trigger] next[i]) by {
                if i < pre.len() {
                    assert(next[i] == pre[i]);
                }
            }
        }
        k = k + 1;
    }
    assert(text@.subrange(start as int, k as int) =~= t);
    Some(acc)
}

/// The tile that the token of cell `c` stands for.
fn classify(text: &Vec<char>, c: CellSpan) -> (r: Option<Tile>)
    requires
        c.start < c.end <= text@.len(),
    ensures
        r == tile_of(token(text@, c)),
{
    let ghost t = token(text@, c);
    if c.end - c.start == 1 {
        let ch = text[c.start];
        assert(t =~= seq![ch]);
        assert(t[0] == ch);
        if ch == '.' {
            Some(Tile::Floor)
        } else if ch == '@' {
            Some(Tile::Wall)
        } else if ch == 'G' {
            Some(Tile::Gem)
        } else if ch == 'X' {
            Some(Tile::Exit)
        } else if ch == 'V' {
            Some(Tile::Void)
        } else {
            None
        }
    } else {
        assert(t.len() != 1);
        assert(t != seq!['.'] && t != seq!['@'] && t != seq!['G'] && t != seq!['X'] && t != seq!['V']);
        if text[c.start] != 'S' {
            assert(t[0] == text@[c.start as int]);
            return None;
        }
        assert(t.drop_first() =~= text@.subrange(c.start + 1, c.end as int));
        match digits_to_value(text, c.start + 1, c.end) {
            Some(id) => Some(Tile::Start { agent_id: id }),
            None => None,
        }
    }
}

/// Whether `name` is a valid level name.
fn check_name(name: &str) -> (r: bool)
    ensures
        r == valid_name(name@),
{
    let chars = chars_of(name);
    if chars.len() == 0 {
        return false;
    }
    let mut i: usize = 0;
    while i < chars.len()
        invariant
            i <= chars.len(),
            chars@ == name@,
            forall|k: int| 0 <= k < i ==> name_char(#[trigger] chars@[k]),
        decreases chars.len() - i,
    {
        let c = chars[i];
        let ok = ('a' <= c && c <= 'z') || ('A' <= c && c <= 'Z') || ('0' <= c && c <= '9')
            || c == '_' || c == '-' || c == '.';
        if !ok {
            return false;
        }
        i = i + 1;
    }
    true
}

/// Parses level text named `file_name` into the initial world state: one
/// position per start tile in scan order, one uncollected flag per gem tile.
pub fn parse(text: &str, file_name: &str) -> (r: Result<WorldState, ParseError>)
    ensures
        result_view(r) == parse_spec(text@, file_name@),
{
    let chars = chars_of(text);
    let (cells, widths) = scan_chars(&chars);
    let ghost st = scan(text@);
    if widths.len() == 0 {
        return Err(ParseError::EmptyWorld);
    }
    if !check_name(file_name) {
        return Err(ParseError::InvalidFileName { file_name: String::from_str(file_name) });
    }
    let w0 = widths[0];
    let mut k: usize = 1;
    while k < widths.len()
        invariant
            1 <= k <= widths@.len(),
            widths@ == st.widths,
            st == scan(text@),
            valid_name(file_name@),
            w0 == st.widths[0],
            first_mismatch(st.widths, w0, 1) == first_mismatch(st.widths, w0, k as int),
        decreases widths.len() - k,
    {
        if widths[k] != w0 {
            return Err(
                ParseError::InconsistentDimensions {
                    expected_n_cols: w0,
                    actual_n_cols: widths[k],
                    row: k,
                },
            );
        }
        k = k + 1;
    }
    let mut sts: Vec<(AgentId, Position)> = Vec::new();
    let mut n_gems: usize = 0;
    let mut n_exits: usize = 0;
    let mut i: usize = 0;
    while i < cells.len()
        invariant
            i <= cells@.len(),
            cells@ == st.cells,
            chars@ == text@,
            st == scan(text@),
            st.widths.len() > 0,
            valid_name(file_name@),
            first_mismatch(st.widths, st.widths[0], 1) is None,
            scan_wf(st, text@.len() as int),
            first_invalid(text@, st.cells, 0) == first_invalid(text@, st.cells, i as int),
            sts@ == starts(text@, st.cells.subrange(0, i as int)),
            n_gems as nat == count_tile(text@, st.cells.subrange(0, i as int), Tile::Gem),
            n_exits as nat == count_tile(text@, st.cells.subrange(0, i as int), Tile::Exit),
            n_gems <= i,
            n_exits <= i,
            sts@.len() <= i,
        decreases cells.len() - i,
    {
        let c = cells[i];
        assert(st.cells.subrange(0, i + 1).drop_last() =~= st.cells.subrange(0, i as int));
        let tile = classify(&chars, c);
        match tile {
            None => {
                let s = text.substring_char(c.start, c.end);
                return Err(
                    ParseError::InvalidTile {
                        tile_str: String::from_str(s),
                        line: c.row,
                        col: c.col,
                    },
                );
            },
            Some(Tile::Start { agent_id }) => {
                sts.push((agent_id, (c.row, c.col)));
            },
            Some(Tile::Gem) => {
                n_gems = n_gems + 1;
            },
            Some(Tile::Exit) => {
                n_exits = n_exits + 1;
            },
            Some(_) => {},
        }
        i = i + 1;
    }
    assert(st.cells.subrange(0, i as int) =~= st.cells);
    let mut k: usize = 0;
    while k < sts.len()
        invariant
            k <= sts@.len(),
            st == scan(text@),
            st.widths.len() > 0,
            valid_name(file_name@),
            first_mismatch(st.widths, st.widths[0], 1) is None,
            first_invalid(text@, st.cells, 0) is None,
            sts@ == starts(text@, st.cells),
            first_duplicate(sts@, 0) == first_duplicate(sts@, k as int),
        decreases sts.len() - k,
    {
        let mut j: usize = 0;
        while j < k
            invariant
                j <= k < sts@.len(),
                st == scan(text@),
                st.widths.len() > 0,
                valid_name(file_name@),
                first_mismatch(st.widths, st.widths[0], 1) is None,
                first_invalid(text@, st.cells, 0) is None,
                sts@ == starts(text@, st.cells),
                first_duplicate(sts@, 0) == first_duplicate(sts@, k as int),
                earlier_same_agent(sts@, k as int, 0) == earlier_same_agent(sts@, k as int, j as int),
            decreases k - j,
        {
            if sts[j].0 == sts[k].0 {
                return Err(
                    ParseError::DuplicateStartTile {
                        agent_id: sts[k].0,
                        start1: sts[j].1,
                        start2: sts[k].1,
                    },
                );
            }
            j = j + 1;
        }
        k = k + 1;
    }
    if sts.len() == 0 {
        return Err(ParseError::NoAgents);
    }
    if n_exits < sts.len() {
        return Err(ParseError::NotEnoughExitTiles { n_starts: sts.len(), n_exits });
    }
    let mut positions: Vec<Position> = Vec::with_capacity(sts.len());
    let mut p: usize = 0;
    while p < sts.len()
        invariant
            p <= sts@.len(),
            positions@ == sts@.subrange(0, p as int).map_values(|q: (AgentId, Position)| q.1),
        decreases sts.len() - p,
    {
        positions.push(sts[p].1);
        assert(sts@.subrange(0, p + 1).map_values(|q: (AgentId, Position)| q.1) =~= positions@);
        p = p + 1;
    }
    assert(sts@.subrange(0, p as int) =~= sts@);
    let mut gems: Vec<bool> = Vec::with_capacity(n_gems);
    let mut g: usize = 0;
    while g < n_gems
        invariant
            g <= n_gems,
            gems@ == Seq::new(g as nat, |x: int| false),
        decreases n_gems - g,
    {
        gems.push(false);
        assert(gems@ =~= Seq::new((g + 1) as nat, |x: int| false));
        g = g + 1;
    }
    let r = WorldState::new(positions, gems);
    assert(r@.gems_collected =~= Seq::new(count_tile(text@, st.cells, Tile::Gem), |x: int| false));
    Ok(r)
}

/// A successfully parsed level has one agent position per start tile, one gem
/// flag per gem tile, and no gem collected yet.
pub proof fn lemma_parsed_sizes(text: Seq<char>, name: Seq<char>)
    requires
        parse_spec(text, name) is Ok,
    ensures
        ({
            let w = parse_spec(text, name)->Ok_0;
            let cells = scan(text).cells;
            &&& w.agents_positions.len() == starts(text, cells).len()
            &&& w.gems_collected.len() == count_tile(text, cells, Tile::Gem)
            &&& forall|i: int| 0 <= i < w.gems_collected.len() ==> !#[trigger] w.gems_collected[i]
        }),
{
}

/// Parsing is deterministic: the same text and name always give the same
/// outcome, so two successful parses give equal world states.
pub proof fn lemma_parse_deterministic(t1: Seq<char>, n1: Seq<char>, t2: Seq<char>, n2: Seq<char>)
    requires
        t1 == t2,
        n1 == n2,
    ensures
        parse_spec(t1, n1) == parse_spec(t2, n2),
{
}

/// Characters that end a token.
pub open spec fn is_separator(c: char) -> bool {
    is_blank(c) || c == '\n'
}

/// Each cell is a maximal run of non-separator characters of `s`.
pub open spec fn cells_maximal(s: Seq<char>, cells: Seq<CellSpan>) -> bool {
    forall|k: int| 0 <= k < cells.len() ==> {
        let c = #[trigger] cells[k];
        &&& c.start < c.end <= s.len()
        &&& forall|i: int| c.start <= i < c.end ==> !is_separator(s[i])
        &&& c.start == 0 || is_separator(s[c.start - 1])
        &&& c.end == s.len() || is_separator(s[c.end as int])
    }
}

/// The cells come in text order.
pub open spec fn cells_in_order(cells: Seq<CellSpan>) -> bool {
    forall|j: int, k: int| 0 <= j < k < cells.len() ==> (#[trigger] cells[j]).end < (#[trigger] cells[k]).start
}

/// Every non-separator character of `s` lies in some cell.
pub open spec fn cells_cover(s: Seq<char>, cells: Seq<CellSpan>) -> bool {
    forall|i: int| 0 <= i < s.len() && !is_separator(#[trigger] s[i]) ==> exists|k: int|
        0 <= k < cells.len() && (#[trigger] cells[k]).start <= i < cells[k].end
}

/// Whether a line break stands in `s[a..b]`.
pub open spec fn has_newline(s: Seq<char>, a: int, b: int) -> bool {
    exists|i: int| a <= i < b && s[i] == '\n'
}

/// The first cell is at row 0, column 0; a cell after a line break starts the
/// next row at column 0, and otherwise follows the cell before it on its row.
pub open spec fn cells_placed(s: Seq<char>, cells: Seq<CellSpan>) -> bool {
    &&& cells.len() > 0 ==> cells[0].row == 0 && cells[0].col == 0
    &&& forall|k: int| 0 < k < cells.len() ==> {
        let a = cells[k - 1];
        let b = #[trigger] cells[k];
        if has_newline(s, a.end as int, b.start as int) {
            b.row == a.row + 1 && b.col == 0
        } else {
            b.row == a.row && b.col == a.col + 1
        }
    }
}

spec fn cells_shape(s: Seq<char>, cells: Seq<CellSpan>) -> bool {
    &&& cells_maximal(s, cells)
    &&& cells_in_order(cells)
    &&& cells_cover(s, cells)
}

/// What the cells of a text are, stated without the scan: the maximal runs of
/// non-separator characters, in text order, covering every such character,
/// numbered by row (a line holding a token) and by column within the row.
pub open spec fn cells_described(s: Seq<char>, cells: Seq<CellSpan>) -> bool {
    &&& cells_maximal(s, cells)
    &&& cells_in_order(cells)
    &&& cells_cover(s, cells)
    &&& cells_placed(s, cells)
}

/// How the scan state stands at the end of the text read so far.
spec fn scan_tail(s: Seq<char>, st: ScanView) -> bool {
    &&& st.in_token <==> (s.len() > 0 && !is_separator(s.last()))
    &&& st.in_token ==> st.cells.len() > 0 && st.cells.last().end == s.len()
    &&& st.cells.len() > 0 ==> st.cells.last().end <= s.len()
}

spec fn step_ready(s: Seq<char>) -> bool {
    &&& 0 < s.len() <= usize::MAX
    &&& cells_shape(s.drop_last(), scan(s.drop_last()).cells)
    &&& scan_tail(s.drop_last(), scan(s.drop_last()))
}

/// A separator leaves the cells as they are.
#[verifier::rlimit(40)]
proof fn lemma_step_separator(s: Seq<char>)
    requires
        step_ready(s),
        is_separator(s.last()),
    ensures
        cells_shape(s, scan(s).cells),
        scan_tail(s, scan(s)),
{
    let p = s.drop_last();
    let n = p.len() as int;
    let st = scan(p);
    let cells = st.cells;
    assert(scan(s).cells == cells);
    assert(forall|i: int| 0 <= i < n ==> s[i] == p[i]);
    assert forall|i: int| 0 <= i < s.len() && !is_separator(#[trigger] s[i]) implies exists|k: int|
        0 <= k < cells.len() && (#[trigger] cells[k]).start <= i < cells[k].end by {
        assert(p[i] == s[i]);
    }
}

/// A token character right after another extends the last cell.
#[verifier::rlimit(40)]
proof fn lemma_step_extend(s: Seq<char>)
    requires
        step_ready(s),
        !is_separator(s.last()),
        scan(s.drop_last()).in_token,
    ensures
        cells_shape(s, scan(s).cells),
        scan_tail(s, scan(s)),
{
    let p = s.drop_last();
    let n = p.len() as int;
    let st = scan(p);
    let cells = st.cells;
    let cells2 = scan(s).cells;
    let last = cells.len() - 1;
    assert(cells2 == cells.update(last, CellSpan { end: (n + 1) as usize, ..cells[last] }));
    assert(cells2.len() == cells.len());
    assert(forall|k: int| 0 <= k < last ==> cells2[k] == cells[k]);
    assert(cells2[last].start == cells[last].start && cells2[last].row == cells[last].row
        && cells2[last].col == cells[last].col && cells2[last].end == n + 1);
    assert(cells_maximal(s, cells2)) by {
        assert forall|k: int| 0 <= k < cells2.len() implies {
            let c = #[trigger] cells2[k];
            &&& c.start < c.end <= s.len()
            &&& forall|i: int| c.start <= i < c.end ==> !is_separator(s[i])
            &&& c.start == 0 || is_separator(s[c.start - 1])
            &&& c.end == s.len() || is_separator(s[c.end as int])
        } by {
            let c = cells2[k];
            if k < last {
                assert(cells[k].end < cells[last].start);
                assert(s[c.end as int] == p[c.end as int]);
            } else {
                assert(s[n] == s.last());
            }
            assert forall|i: int| c.start <= i < c.end implies !is_separator(s[i]) by {
                if i < n {
                    assert(s[i] == p[i]);
                    assert(cells[k].start <= i < cells[k].end);
                } else {
                    assert(s[i] == s.last());
                }
            }
            if c.start > 0 {
                assert(s[c.start - 1] == p[c.start - 1]);
            }
        }
    }
    assert(cells_in_order(cells2)) by {
        assert forall|j: int, k: int| 0 <= j < k < cells2.len() implies (#[trigger] cells2[j]).end < (#[trigger] cells2[k]).start by {
            assert(cells[j].end < cells[k].start);
        }
    }
    assert(forall|i: int| 0 <= i < n ==> s[i] == p[i]);
    assert forall|i: int| 0 <= i < s.len() && !is_separator(#[trigger] s[i]) implies exists|k: int|
        0 <= k < cells2.len() && (#[trigger] cells2[k]).start <= i < cells2[k].end by {
        if i < n {
            assert(p[i] == s[i]);
            let k = choose|k: int| 0 <= k < cells.len() && (#[trigger] cells[k]).start <= i < cells[k].end;
            assert(cells2[k].start <= i < cells2[k].end);
        } else {
            assert(cells2[last].start <= i < cells2[last].end);
        }
    }
}

/// A token character after a separator, or at the start, opens a new cell.
#[verifier::rlimit(60)]
proof fn lemma_step_new_cell(s: Seq<char>)
    requires
        step_ready(s),
        !is_separator(s.last()),
        !scan(s.drop_last()).in_token,
    ensures
        cells_shape(s, scan(s).cells),
        scan_tail(s, scan(s)),
{
    let p = s.drop_last();
    let n = p.len() as int;
    let st = scan(p);
    let cells = st.cells;
    let cells2 = scan(s).cells;
    let k2 = cells.len() as int;
    assert(cells2.len() == k2 + 1);
    assert(forall|k: int| 0 <= k < k2 ==> cells2[k] == cells[k]);
    assert(cells2[k2].start == n && cells2[k2].end == n + 1);
    assert(forall|i: int| 0 <= i < n ==> s[i] == p[i]);
    if k2 > 0 {
        let a = cells[k2 - 1];
        assert(!is_separator(p[a.end - 1]));
        assert(a.end < n);
        assert forall|j: int| 0 <= j < k2 implies (#[trigger] cells[j]).end < n by {
            if j < k2 - 1 {
                assert(cells[j].end < cells[k2 - 1].start);
            }
        }
    }
    assert forall|i: int| 0 <= i < s.len() && !is_separator(#[trigger] s[i]) implies exists|k: int|
        0 <= k < cells2.len() && (#[trigger] cells2[k]).start <= i < cells2[k].end by {
        if i < n {
            assert(p[i] == s[i]);
            let k = choose|k: int| 0 <= k < cells.len() && (#[trigger] cells[k]).start <= i < cells[k].end;
            assert(cells2[k].start <= i < cells2[k].end);
        } else {
            assert(cells2[k2].start <= i < cells2[k2].end);
        }
    }
}

proof fn lemma_scan_described_tail(s: Seq<char>)
    requires
        s.len() <= usize::MAX,
    ensures
        cells_shape(s, scan(s).cells),
        scan_tail(s, scan(s)),
    decreases s.len(),
{
    if s.len() > 0 {
        lemma_scan_described_tail(s.drop_last());
        if is_separator(s.last()) {
            lemma_step_separator(s);
        } else if scan(s.drop_last()).in_token {
            lemma_step_extend(s);
        } else {
            lemma_step_new_cell(s);
        }
    }
}

/// The cells found by the scan of any text that fits in memory are described
/// by `cells_described`.
pub proof fn lemma_scan_described(s: Seq<char>)
    requires
        s.len() <= usize::MAX,
    ensures
        cells_described(s, scan(s).cells),
{
    lemma_scan_described_tail(s);
    lemma_scan_placed_tail(s);
}

/// How rows and columns stand at the end of the text read so far.
spec fn line_tail(s: Seq<char>, st: ScanView) -> bool {
    &&& st.in_token ==> st.line_open && st.cells.len() > 0 && st.cells.last().end == s.len()
    &&& st.cells.len() > 0 ==> st.cells.last().end <= s.len()
    &&& st.cells.len() > 0 ==> st.cells.last().col <= st.cells.last().start && st.cells.last().row
        <= st.cells.last().start
    &&& st.line_open ==> st.cells.len() > 0 && !has_newline(s, st.cells.last().end as int, s.len() as int)
        && st.widths.len() == st.cells.last().row + 1 && st.widths.last() == st.cells.last().col + 1
    &&& !st.line_open && st.cells.len() > 0 ==> has_newline(s, st.cells.last().end as int, s.len() as int)
        && st.widths.len() == st.cells.last().row + 1
    &&& st.cells.len() == 0 ==> st.widths.len() == 0 && !st.line_open
}

proof fn lemma_newline_prefix(s: Seq<char>, a: int, b: int)
    requires
        s.len() > 0,
        0 <= a <= b < s.len(),
    ensures
        has_newline(s, a, b) == has_newline(s.drop_last(), a, b),
        has_newline(s, a, b + 1) == (has_newline(s.drop_last(), a, b) || s[b] == '\n'),
{
    let p = s.drop_last();
    if has_newline(s, a, b + 1) {
        let i = choose|i: int| a <= i < b + 1 && s[i] == '\n';
        if i < b {
            assert(p[i] == '\n');
        }
    }
    if has_newline(s, a, b) {
        let i = choose|i: int| a <= i < b && s[i] == '\n';
        assert(p[i] == '\n');
    }
    if has_newline(p, a, b) {
        let i = choose|i: int| a <= i < b && p[i] == '\n';
        assert(s[i] == '\n');
    }
    if s[b] == '\n' {
        assert(a <= b < b + 1 && s[b] == '\n');
    }
}

spec fn placed_ready(s: Seq<char>) -> bool {
    &&& 0 < s.len() <= usize::MAX
    &&& cells_in_order(scan(s.drop_last()).cells)
    &&& cells_maximal(s.drop_last(), scan(s.drop_last()).cells)
    &&& scan_tail(s.drop_last(), scan(s.drop_last()))
    &&& cells_placed(s.drop_last(), scan(s.drop_last()).cells)
    &&& line_tail(s.drop_last(), scan(s.drop_last()))
}

/// Line breaks before the end of the text read so far are unchanged by one more character.
proof fn lemma_placed_prefix(s: Seq<char>)
    requires
        placed_ready(s),
    ensures
        forall|k: int| 0 < k < scan(s.drop_last()).cells.len() ==> has_newline(
            s,
            scan(s.drop_last()).cells[k - 1].end as int,
            (#[trigger] scan(s.drop_last()).cells[k]).start as int,
        ) == has_newline(
            s.drop_last(),
            scan(s.drop_last()).cells[k - 1].end as int,
            scan(s.drop_last()).cells[k].start as int,
        ),
{
    let p = s.drop_last();
    let cells = scan(p).cells;
    assert forall|k: int| 0 < k < cells.len() implies has_newline(s, cells[k - 1].end as int, (#[trigger] cells[k]).start as int)
        == has_newline(p, cells[k - 1].end as int, cells[k].start as int) by {
        assert(cells[k - 1].end < cells[k].start);
        assert(cells[k].start < cells[k].end <= p.len());
        lemma_newline_prefix(s, cells[k - 1].end as int, cells[k].start as int);
    }
}

#[verifier::rlimit(40)]
proof fn lemma_placed_separator(s: Seq<char>)
    requires
        placed_ready(s),
        is_separator(s.last()),
    ensures
        cells_placed(s, scan(s).cells),
        line_tail(s, scan(s)),
{
    let p = s.drop_last();
    let n = p.len() as int;
    let cells = scan(p).cells;
    lemma_placed_prefix(s);
    if cells.len() > 0 {
        lemma_newline_prefix(s, cells.last().end as int, n);
    }
    assert(scan(s).cells == cells);
}

#[verifier::rlimit(40)]
proof fn lemma_placed_extend(s: Seq<char>)
    requires
        placed_ready(s),
        !is_separator(s.last()),
        scan(s.drop_last()).in_token,
    ensures
        cells_placed(s, scan(s).cells),
        line_tail(s, scan(s)),
{
    let p = s.drop_last();
    let n = p.len() as int;
    let cells = scan(p).cells;
    let cells2 = scan(s).cells;
    let k2 = cells.len() as int;
    lemma_placed_prefix(s);
    assert(cells2.len() == k2);
    assert(forall|k: int| 0 <= k < k2 - 1 ==> cells2[k] == cells[k]);
    assert(cells2[k2 - 1].start == cells[k2 - 1].start && cells2[k2 - 1].row == cells[k2 - 1].row
        && cells2[k2 - 1].col == cells[k2 - 1].col && cells2[k2 - 1].end == n + 1);
    assert(!has_newline(s, n + 1, n + 1));
    assert forall|k: int| 0 < k < k2 implies has_newline(s, cells2[k - 1].end as int, (#[trigger] cells2[k]).start as int)
        == has_newline(p, cells[k - 1].end as int, cells[k].start as int) by {
        assert(cells2[k - 1] == cells[k - 1]);
        assert(cells2[k].start == cells[k].start);
        assert(has_newline(s, cells[k - 1].end as int, cells[k].start as int) == has_newline(p, cells[k - 1].end as int, cells[k].start as int));
    }
}

#[verifier::rlimit(80)]
proof fn lemma_placed_new_cell_open(s: Seq<char>)
    requires
        placed_ready(s),
        !is_separator(s.last()),
        !scan(s.drop_last()).in_token,
        scan(s.drop_last()).line_open,
    ensures
        cells_placed(s, scan(s).cells),
        line_tail(s, scan(s)),
{
    let p = s.drop_last();
    let n = p.len() as int;
    let cells = scan(p).cells;
    let cells2 = scan(s).cells;
    let k2 = cells.len() as int;
    lemma_placed_prefix(s);
    if k2 > 0 {
        let a = cells[k2 - 1];
        assert(!is_separator(p[a.end - 1]));
        assert(is_separator(p[n - 1]));
        assert(a.end < n);
        lemma_newline_prefix(s, a.end as int, n);
    }
    assert(cells2.len() == k2 + 1);
    assert(forall|k: int| 0 <= k < k2 ==> cells2[k] == cells[k]);
    assert(cells2[k2].start == n && cells2[k2].end == n + 1);
    assert(!has_newline(s, n + 1, n + 1));
    assert(cells_placed(s, cells2)) by {
        assert forall|k: int| 0 < k < cells2.len() implies {
            let a = cells2[k - 1];
            let b = #[trigger] cells2[k];
            if has_newline(s, a.end as int, b.start as int) {
                b.row == a.row + 1 && b.col == 0
            } else {
                b.row == a.row && b.col == a.col + 1
            }
        } by {
            if k < k2 {
                assert(cells2[k - 1] == cells[k - 1] && cells2[k] == cells[k]);
                assert(has_newline(s, cells[k - 1].end as int, cells[k].start as int) == has_newline(p, cells[k - 1].end as int, cells[k].start as int));
            }
        }
    }
}

#[verifier::rlimit(80)]
proof fn lemma_placed_new_cell_fresh(s: Seq<char>)
    requires
        placed_ready(s),
        !is_separator(s.last()),
        !scan(s.drop_last()).in_token,
        !scan(s.drop_last()).line_open,
    ensures
        cells_placed(s, scan(s).cells),
        line_tail(s, scan(s)),
{
    let p = s.drop_last();
    let n = p.len() as int;
    let cells = scan(p).cells;
    let cells2 = scan(s).cells;
    let k2 = cells.len() as int;
    lemma_placed_prefix(s);
    if k2 > 0 {
        let a = cells[k2 - 1];
        assert(!is_separator(p[a.end - 1]));
        assert(is_separator(p[n - 1]));
        assert(a.end < n);
        lemma_newline_prefix(s, a.end as int, n);
    }
    assert(cells2.len() == k2 + 1);
    assert(forall|k: int| 0 <= k < k2 ==> cells2[k] == cells[k]);
    assert(cells2[k2].start == n && cells2[k2].end == n + 1);
    assert(!has_newline(s, n + 1, n + 1));
    assert(cells_placed(s, cells2)) by {
        assert forall|k: int| 0 < k < cells2.len() implies {
            let a = cells2[k - 1];
            let b = #[trigger] cells2[k];
            if has_newline(s, a.end as int, b.start as int) {
                b.row == a.row + 1 && b.col == 0
            } else {
                b.row == a.row && b.col == a.col + 1
            }
        } by {
            if k < k2 {
                assert(cells2[k - 1] == cells[k - 1] && cells2[k] == cells[k]);
                assert(has_newline(s, cells[k - 1].end as int, cells[k].start as int) == has_newline(p, cells[k - 1].end as int, cells[k].start as int));
            }
        }
    }
}

proof fn lemma_scan_placed_tail(s: Seq<char>)
    requires
        s.len() <= usize::MAX,
    ensures
        cells_placed(s, scan(s).cells),
        line_tail(s, scan(s)),
    decreases s.len(),
{
    if s.len() > 0 {
        lemma_scan_placed_tail(s.drop_last());
        lemma_scan_described_tail(s.drop_last());
        if is_separator(s.last()) {
            lemma_placed_separator(s);
        } else if scan(s.drop_last()).in_token {
            lemma_placed_extend(s);
        } else if scan(s.drop_last()).line_open {
            lemma_placed_new_cell_open(s);
        } else {
            lemma_placed_new_cell_fresh(s);
        }
    }
}

} // verus!
