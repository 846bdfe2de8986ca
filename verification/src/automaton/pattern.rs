//! Starting patterns: the text of a pattern file and what it says.
//!
//! A pattern file is read line by line. A line that begins with `#` opens the
//! body of the pattern, and the next such line closes it. Inside the body
//! every line is a row of cells, one character for each cell: the character
//! `0` and as many steps above it as the state says. Outside the body a line
//! `N=<number>` gives the number of states and a line `BG=<number>` the state
//! of the background; every other line is passed over.
use vstd::prelude::*;

verus! {

/// What went wrong when a pattern was read.
#[derive(Debug)]
pub enum PatternError {
    /// The file could not be read.
    PatternFileError(std::io::Error),
    /// The text is not that of a pattern.
    PatternFormatError,
}

impl PatternError {
    /// What went wrong, in words.
    pub fn message(&self) -> (text: String)
        ensures
            self is PatternFormatError ==> text@ == "incorrect pattern format in file"@,
            self is PatternFileError ==> text@ == "io error with the pattern file"@,
    {
        broadcast use vstd::string::to_string_from_display_ensures_for_str;

        match self {
            PatternError::PatternFormatError => "incorrect pattern format in file".to_string(),
            PatternError::PatternFileError(..) => "io error with the pattern file".to_string(),
        }
    }
}

impl From<std::io::Error> for PatternError {
    fn from(err: std::io::Error) -> (e: PatternError) {
        PatternError::PatternFileError(err)
    }
}

impl vstd::std_specs::convert::FromSpecImpl<std::io::Error> for PatternError {
    open spec fn obeys_from_spec() -> bool {
        true
    }

    open spec fn from_spec(err: std::io::Error) -> PatternError {
        PatternError::PatternFileError(err)
    }
}

/// A starting pattern as a mathematical value.
pub struct PatternView {
    /// The number of states that the pattern is for.
    pub states: u8,
    /// The state of the cells around the pattern.
    pub background: u8,
    /// The rows of the pattern. They need not have the same length.
    pub pattern: Seq<Seq<u8>>,
}

/// A starting pattern.
pub struct PatternSpec {
    /// The number of states that the pattern is for.
    pub states: u8,
    /// The state of the cells around the pattern.
    pub background: u8,
    /// The rows of the pattern. They need not have the same length.
    pub pattern: Vec<Vec<u8>>,
}

/// The rows of cells that rows of bytes hold.
pub open spec fn rows_of(rows: Seq<Vec<u8>>) -> Seq<Seq<u8>> {
    Seq::new(rows.len(), |i: int| rows[i]@)
}

impl View for PatternSpec {
    type V = PatternView;

    open spec fn view(&self) -> PatternView {
        PatternView {
            states: self.states,
            background: self.background,
            pattern: rows_of(self.pattern@),
        }
    }
}

impl PatternView {
    /// The length of the longest of the first `count` rows.
    pub open spec fn widest(self, count: nat) -> nat
        decreases count,
    {
        if count == 0 {
            0
        } else {
            let rest = self.widest((count - 1) as nat);
            let len = self.pattern[count - 1].len();
            if len > rest {
                len
            } else {
                rest
            }
        }
    }

    /// The length of the longest row.
    pub open spec fn width(self) -> nat {
        self.widest(self.pattern.len())
    }

    /// The pattern can be laid on a grid of `states` states: it is for no
    /// more states than that, and its background and all its cells are among
    /// them.
    pub open spec fn suits(self, states: u8) -> bool {
        &&& self.states <= states
        &&& self.background < states
        &&& forall|i: int, j: int|
            0 <= i < self.pattern.len() && 0 <= j < self.pattern[i].len()
                ==> #[trigger] self.pattern[i][j] < states
    }

    /// The state at `(row, col)` of a grid of side `n` that holds the
    /// pattern in its middle and the background around it. The pattern is
    /// placed with its middle row on the middle row of the grid and the
    /// middle of its longest row on the middle column; what reaches over an
    /// edge of the grid is cut off.
    pub open spec fn laid_out(self, n: int, row: int, col: int) -> u8 {
        let i = row - (n / 2 - self.pattern.len() / 2);
        let j = col - (n / 2 - self.width() / 2);
        if 0 <= i < self.pattern.len() && 0 <= j < self.pattern[i].len() {
            self.pattern[i][j]
        } else {
            self.background
        }
    }
}

impl PatternSpec {
    /// The length of the longest row.
    pub fn width(&self) -> (w: usize)
        ensures
            w == self@.width(),
    {
        let mut w: usize = 0;
        let mut i: usize = 0;
        while i < self.pattern.len()
            invariant
                i <= self.pattern.len(),
                w == self@.widest(i as nat),
            decreases self.pattern.len() - i,
        {
            let len = self.pattern[i].len();
            if len > w {
                w = len;
            }
            i = i + 1;
        }
        w
    }

    /// Whether the pattern can be laid on a grid of `states` states.
    pub fn suits(&self, states: u8) -> (ok: bool)
        ensures
            ok == self@.suits(states),
    {
        if self.states > states || self.background >= states {
            return false;
        }
        let mut i: usize = 0;
        while i < self.pattern.len()
            invariant
                i <= self.pattern.len(),
                forall|a: int, b: int|
                    0 <= a < i && 0 <= b < self@.pattern[a].len() ==> #[trigger] self@.pattern[a][b]
                        < states,
            decreases self.pattern.len() - i,
        {
            let row = &self.pattern[i];
            let mut j: usize = 0;
            while j < row.len()
                invariant
                    j <= row.len(),
                    i < self.pattern.len(),
                    row@ == self@.pattern[i as int],
                    forall|b: int| 0 <= b < j ==> #[trigger] row[b] < states,
                decreases row.len() - j,
            {
                if row[j] >= states {
                    assert(self@.pattern[i as int][j as int] >= states);
                    return false;
                }
                j = j + 1;
            }
            i = i + 1;
        }
        true
    }

    /// The state at `(row, col)` of a grid of side `n` that holds the
    /// pattern in its middle and the background around it. `width` is the
    /// length of the longest row of the pattern.
    pub fn state_at(&self, n: usize, width: usize, row: usize, col: usize) -> (state: u8)
        requires
            width == self@.width(),
            row < n,
            col < n,
            2 * n <= usize::MAX,
        ensures
            state == self@.laid_out(n as int, row as int, col as int),
    {
        let lines = self.pattern.len();
        let up = n / 2;
        let down = lines / 2;
        let left = width / 2;
        if row + down < up || col + left < up {
            return self.background;
        }
        let i = row + down - up;
        let j = col + left - up;
        if i < lines && j < self.pattern[i].len() {
            self.pattern[i][j]
        } else {
            self.background
        }
    }
}

/// The end of the line that begins at `from`: the place of the next line
/// feed, or the end of the text.
pub open spec fn line_end(text: Seq<u8>, from: int) -> int
    decreases text.len() - from,
{
    if from >= text.len() || text[from] == 10 {
        from
    } else {
        line_end(text, from + 1)
    }
}

/// A line without the carriage return before the line feed that ended it.
pub open spec fn without_cr(line: Seq<u8>, ended: bool) -> Seq<u8> {
    if ended && line.len() > 0 && line.last() == 13 {
        line.drop_last()
    } else {
        line
    }
}

/// The lines of the text from `from` on. A line ends with a line feed or
/// with the text; the line feed is no part of it, nor is a carriage return
/// just before the line feed.
pub open spec fn lines_from(text: Seq<u8>, from: int) -> Seq<Seq<u8>>
    decreases text.len() - from,
    via lines_from_ends
{
    if from < 0 || from >= text.len() {
        Seq::empty()
    } else {
        let end = line_end(text, from);
        let line = without_cr(text.subrange(from, end), end < text.len());
        if end < text.len() {
            seq![line] + lines_from(text, end + 1)
        } else {
            seq![line]
        }
    }
}

#[via_fn]
proof fn lines_from_ends(text: Seq<u8>, from: int) {
    if 0 <= from < text.len() {
        lemma_line_end(text, from);
    }
}

/// A line ends at or after its beginning, and within the text.
pub proof fn lemma_line_end(text: Seq<u8>, from: int)
    requires
        0 <= from <= text.len(),
    ensures
        from <= line_end(text, from) <= text.len(),
    decreases text.len() - from,
{
    if from < text.len() && text[from] != 10 {
        lemma_line_end(text, from + 1);
    }
}

/// The lines of the text.
pub open spec fn lines_of(text: Seq<u8>) -> Seq<Seq<u8>> {
    lines_from(text, 0)
}

/// The number that decimal digits stand for.
pub open spec fn decimal(digits: Seq<u8>) -> int
    decreases digits.len(),
{
    if digits.len() == 0 {
        0
    } else {
        10 * decimal(digits.drop_last()) + (digits.last() - 48)
    }
}

/// Every byte is a decimal digit.
pub open spec fn all_decimal(digits: Seq<u8>) -> bool {
    forall|i: int| 0 <= i < digits.len() ==> 48 <= #[trigger] digits[i] <= 57
}

/// The number below 256 that a text stands for: decimal digits, at least
/// one, with or without a `+` before them.
pub open spec fn number_of(text: Seq<u8>) -> Option<u8> {
    let digits = if text.len() > 0 && text[0] == 43 {
        text.subrange(1, text.len() as int)
    } else {
        text
    };
    if digits.len() > 0 && all_decimal(digits) && decimal(digits) <= 255 {
        Some(decimal(digits) as u8)
    } else {
        None
    }
}

/// The place of the first byte `b` at or after `from`, or the end of the
/// line.
pub open spec fn find(line: Seq<u8>, b: u8, from: int) -> int
    decreases line.len() - from,
{
    if from >= line.len() || line[from] == b {
        from
    } else {
        find(line, b, from + 1)
    }
}

/// Every byte stands for a cell: it is a character from `0` on.
pub open spec fn all_cells(line: Seq<u8>) -> bool {
    forall|i: int| 0 <= i < line.len() ==> 48 <= #[trigger] line[i] < 128
}

/// The cells that the bytes of a row stand for.
pub open spec fn cells_of(line: Seq<u8>) -> Seq<u8> {
    Seq::new(line.len(), |i: int| (line[i] - 48) as u8)
}

/// How far a pattern has been read.
pub struct Reading {
    /// The lines now read are rows of the pattern.
    pub in_body: bool,
    /// What has been read.
    pub read: PatternView,
}

/// The reading before the first line.
pub open spec fn start_of_reading() -> Reading {
    Reading {
        in_body: false,
        read: PatternView { states: 0, background: 0, pattern: Seq::empty() },
    }
}

/// The reading after one more line, or `None` where the line is not one of a
/// pattern file.
pub open spec fn read_line(before: Reading, line: Seq<u8>) -> Option<Reading> {
    if line.len() > 0 && line[0] == 35 {
        Some(Reading { in_body: !before.in_body, ..before })
    } else if before.in_body {
        if all_cells(line) {
            Some(
                Reading {
                    read: PatternView {
                        pattern: before.read.pattern.push(cells_of(line)),
                        ..before.read
                    },
                    ..before
                },
            )
        } else {
            None
        }
    } else {
        let eq = find(line, 61, 0);
        if eq >= line.len() {
            Some(before)
        } else {
            let key = line.subrange(0, eq);
            let value = line.subrange(eq + 1, find(line, 61, eq + 1));
            if key == seq![78u8] {
                match number_of(value) {
                    Some(n) => Some(
                        Reading { read: PatternView { states: n, ..before.read }, ..before },
                    ),
                    None => None,
                }
            } else if key == seq![66u8, 71u8] {
                match number_of(value) {
                    Some(n) => Some(
                        Reading { read: PatternView { background: n, ..before.read }, ..before },
                    ),
                    None => None,
                }
            } else {
                Some(before)
            }
        }
    }
}

/// The reading after the first `count` lines, or `None` where one of them is
/// not a line of a pattern file.
pub open spec fn read_lines(lines: Seq<Seq<u8>>, count: nat) -> Option<Reading>
    decreases count,
{
    if count == 0 {
        Some(start_of_reading())
    } else {
        match read_lines(lines, (count - 1) as nat) {
            Some(before) => read_line(before, lines[count - 1]),
            None => None,
        }
    }
}

/// The pattern that the text of a pattern file holds, or `None` where the
/// text is not that of a pattern file.
pub open spec fn pattern_of(text: Seq<u8>) -> Option<PatternView> {
    match read_lines(lines_of(text), lines_of(text).len()) {
        Some(reading) => Some(reading.read),
        None => None,
    }
}

/// The digits of a number do not stand for less when more digits follow.
proof fn lemma_decimal_grows(digits: Seq<u8>, count: int)
    requires
        all_decimal(digits),
        0 <= count <= digits.len(),
    ensures
        0 <= decimal(digits.take(count)) <= decimal(digits),
    decreases digits.len() - count,
{
    if count == digits.len() {
        assert(digits.take(count) =~= digits);
        lemma_decimal_positive(digits);
    } else {
        lemma_decimal_grows(digits, count + 1);
        let longer = digits.take(count + 1);
        assert(longer.drop_last() =~= digits.take(count));
        assert(longer.last() == digits[count]);
        lemma_decimal_positive(digits.take(count));
    }
}

/// Digits stand for a number that is not negative.
proof fn lemma_decimal_positive(digits: Seq<u8>)
    requires
        all_decimal(digits),
    ensures
        0 <= decimal(digits),
    decreases digits.len(),
{
    if digits.len() > 0 {
        lemma_decimal_positive(digits.drop_last());
    }
}

/// The place of the first byte `b` of the line at or after `from`, or the
/// length of the line.
fn find_byte(line: &Vec<u8>, b: u8, from: usize) -> (at: usize)
    requires
        from <= line.len(),
    ensures
        at == find(line@, b, from as int),
        from <= at <= line.len(),
    decreases line.len() - from,
{
    let mut at = from;
    while at < line.len() && line[at] != b
        invariant
            from <= at <= line.len(),
            find(line@, b, from as int) == find(line@, b, at as int),
        decreases line.len() - at,
    {
        at = at + 1;
    }
    at
}

/// Reads a number below 256 from the bytes of the line from `from` up to
/// `to`.
fn parse_number(line: &Vec<u8>, from: usize, to: usize) -> (n: Option<u8>)
    requires
        from <= to <= line.len(),
    ensures
        n == number_of(line@.subrange(from as int, to as int)),
{
    let ghost text = line@.subrange(from as int, to as int);
    let start = if from < to && line[from] == 43 {
        from + 1
    } else {
        from
    };
    let ghost digits = line@.subrange(start as int, to as int);
    assert(digits =~= if text.len() > 0 && text[0] == 43 {
        text.subrange(1, text.len() as int)
    } else {
        text
    });
    if start == to {
        return None;
    }
    let mut value: u32 = 0;
    let mut i = start;
    while i < to
        invariant
            start <= i <= to,
            start < to,
            to <= line.len(),
            text == line@.subrange(from as int, to as int),
            digits == line@.subrange(start as int, to as int),
            digits == if text.len() > 0 && text[0] == 43 {
                text.subrange(1, text.len() as int)
            } else {
                text
            },
            all_decimal(digits.take(i - start)),
            value == decimal(digits.take(i - start)),
            value <= 255,
        decreases to - i,
    {
        let b = line[i];
        if b < 48 || b > 57 {
            assert(digits[i - start] == b);
            return None;
        }
        proof {
            let longer = digits.take(i + 1 - start);
            assert(longer.drop_last() =~= digits.take(i - start));
            assert(longer.last() == b);
        }
        value = 10 * value + (b - 48) as u32;
        if value > 255 {
            proof {
                if all_decimal(digits) {
                    lemma_decimal_grows(digits, i + 1 - start);
                }
            }
            return None;
        }
        i = i + 1;
    }
    assert(digits.take(to - start) =~= digits);
    Some(value as u8)
}

/// The lines of the text, each as bytes of its own.
fn split_lines(text: &[u8]) -> (lines: Vec<Vec<u8>>)
    ensures
        rows_of(lines@) == lines_of(text@),
{
    let mut lines: Vec<Vec<u8>> = Vec::new();
    let mut from: usize = 0;
    assert(rows_of(lines@) + lines_from(text@, 0) =~= lines_of(text@));
    while from < text.len()
        invariant
            from <= text.len(),
            rows_of(lines@) + lines_from(text@, from as int) == lines_of(text@),
        decreases text.len() - from,
    {
        let mut line: Vec<u8> = Vec::new();
        let mut end = from;
        while end < text.len() && text[end] != 10
            invariant
                from <= end <= text.len(),
                line_end(text@, from as int) == line_end(text@, end as int),
                line@ == text@.subrange(from as int, end as int),
            decreases text.len() - end,
        {
            line.push(text[end]);
            assert(line@ =~= text@.subrange(from as int, end + 1));
            end = end + 1;
        }
        let ghost whole = line@;
        if end < text.len() && line.len() > 0 && line[line.len() - 1] == 13 {
            line.pop();
        }
        assert(line@ =~= without_cr(whole, end < text.len()));
        let ghost before = rows_of(lines@);
        lines.push(line);
        proof {
            assert(rows_of(lines@) =~= before.push(without_cr(whole, end < text.len())));
            let rest = if end < text.len() {
                lines_from(text@, end + 1)
            } else {
                Seq::<Seq<u8>>::empty()
            };
            assert(lines_from(text@, from as int) =~= seq![without_cr(whole, end < text.len())]
                + rest);
            assert(rows_of(lines@) + rest =~= before + lines_from(text@, from as int));
        }
        if end == text.len() {
            from = end;
        } else {
            from = end + 1;
        }
    }
    assert(lines_from(text@, from as int) =~= Seq::<Seq<u8>>::empty());
    assert(rows_of(lines@) + Seq::<Seq<u8>>::empty() =~= rows_of(lines@));
    lines
}

/// Whether the line holds exactly the bytes `N`, or `B` and `G`, before
/// `end`.
fn key_is(line: &Vec<u8>, end: usize, first: u8, second: Option<u8>) -> (same: bool)
    requires
        end <= line.len(),
    ensures
        same == (line@.subrange(0, end as int) == match second {
            Some(s) => seq![first, s],
            None => seq![first],
        }),
{
    let ghost key = line@.subrange(0, end as int);
    match second {
        Some(s) => {
            let same = end == 2 && line[0] == first && line[1] == s;
            proof {
                let lit = seq![first, s];
                assert(lit.len() == 2 && lit[0] == first && lit[1] == s);
                if same {
                    assert(key =~= lit);
                } else if end == 2 {
                    assert(key[0] == line[0] && key[1] == line[1]);
                }
            }
            same
        },
        None => {
            let same = end == 1 && line[0] == first;
            proof {
                let lit = seq![first];
                assert(lit.len() == 1 && lit[0] == first);
                if same {
                    assert(key =~= lit);
                } else if end == 1 {
                    assert(key[0] == line[0]);
                }
            }
            same
        },
    }
}

/// Reads a pattern from the text of a pattern file.
pub fn parse_pattern(text: &[u8]) -> (res: Result<PatternSpec, PatternError>)
    ensures
        match res {
            Ok(spec) => pattern_of(text@) == Some(spec@),
            Err(PatternError::PatternFormatError) => pattern_of(text@).is_none(),
            Err(PatternError::PatternFileError(_)) => false,
        },
{
    let lines = split_lines(text);
    let mut background: u8 = 0;
    let mut states: u8 = 0;
    let mut begin_pattern = false;
    let mut pattern: Vec<Vec<u8>> = Vec::new();
    let ghost all = lines_of(text@);
    let mut at: usize = 0;
    assert(rows_of(pattern@) =~= Seq::<Seq<u8>>::empty());
    while at < lines.len()
        invariant
            at <= lines.len(),
            all == lines_of(text@),
            rows_of(lines@) == all,
            read_lines(all, at as nat) == Some(
                Reading {
                    in_body: begin_pattern,
                    read: PatternView { states, background, pattern: rows_of(pattern@) },
                },
            ),
        decreases lines.len() - at,
    {
        let line = &lines[at];
        let ghost before = Reading {
            in_body: begin_pattern,
            read: PatternView { states, background, pattern: rows_of(pattern@) },
        };
        assert(all[at as int] == line@);
        assert(read_lines(all, (at + 1) as nat) == read_line(before, line@));
        if line.len() > 0 && line[0] == 35 {
            begin_pattern = !begin_pattern;
        } else if begin_pattern {
            let mut row: Vec<u8> = Vec::new();
            let mut k: usize = 0;
            while k < line.len()
                invariant
                    k <= line.len(),
                    row.len() == k,
                    forall|i: int| 0 <= i < k ==> 48 <= #[trigger] line[i] < 128,
                    forall|i: int| 0 <= i < k ==> #[trigger] row[i] == line[i] - 48,
                    read_lines(all, (at + 1) as nat) == read_line(before, line@),
                    before.in_body,
                    !(line.len() > 0 && line[0] == 35),
                    at < all.len(),
                    all == lines_of(text@),
                decreases line.len() - k,
            {
                let b = line[k];
                if b < 48 || b >= 128 {
                    assert(!all_cells(line@)) by {
                        assert(line@[k as int] == b);
                    }
                    assert(read_lines(all, (at + 1) as nat).is_none());
                    proof {
                        lemma_read_stays_none(all, (at + 1) as nat, all.len());
                    }
                    return Err(PatternError::PatternFormatError);
                }
                row.push(b - 48);
                k = k + 1;
            }
            assert(row@ =~= cells_of(line@));
            let ghost rows = rows_of(pattern@);
            pattern.push(row);
            assert(rows_of(pattern@) =~= rows.push(cells_of(line@)));
        } else {
            let eq = find_byte(line, 61, 0);
            if eq < line.len() {
                let end = find_byte(line, 61, eq + 1);
                if key_is(line, eq, 78, None) {
                    match parse_number(line, eq + 1, end) {
                        Some(n) => {
                            states = n;
                        },
                        None => {
                            proof {
                                lemma_read_stays_none(all, (at + 1) as nat, all.len());
                            }
                            return Err(PatternError::PatternFormatError);
                        },
                    }
                } else if key_is(line, eq, 66, Some(71)) {
                    match parse_number(line, eq + 1, end) {
                        Some(n) => {
                            background = n;
                        },
                        None => {
                            proof {
                                lemma_read_stays_none(all, (at + 1) as nat, all.len());
                            }
                            return Err(PatternError::PatternFormatError);
                        },
                    }
                }
            }
        }
        at = at + 1;
    }
    Ok(PatternSpec { states, background, pattern })
}

/// Once a line has been refused, the reading stays refused.
proof fn lemma_read_stays_none(lines: Seq<Seq<u8>>, count: nat, more: nat)
    requires
        read_lines(lines, count).is_none(),
        count <= more,
    ensures
        read_lines(lines, more).is_none(),
    decreases more,
{
    if count < more {
        lemma_read_stays_none(lines, count, (more - 1) as nat);
    }
}

} // verus!
