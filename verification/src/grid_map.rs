//! The map of a robot: a grid of tiles, free or blocked, read from text.

use vstd::prelude::*;
use vstd::string::StrSliceExecFns;
use crate::text::{chars_of, number, parse_usize, texts};

verus! {

/// Whether a line counts: it is not empty and is no comment, which begins
/// with `/`.
pub open spec fn counts(line: Seq<char>) -> bool {
    line.len() > 0 && line[0] != '/'
}

/// The lines among the first `upto` that count.
pub open spec fn counting(lines: Seq<Seq<char>>, upto: nat) -> Seq<Seq<char>>
    decreases upto,
{
    if upto == 0 {
        Seq::empty()
    } else if counts(lines[upto - 1]) {
        counting(lines, (upto - 1) as nat).push(lines[upto - 1])
    } else {
        counting(lines, (upto - 1) as nat)
    }
}

/// The tiles that a line shows: `_` free, `#` blocked, blanks passed over;
/// `None` where it holds any other character.
pub open spec fn row_of(line: Seq<char>) -> Option<Seq<bool>>
    decreases line.len(),
{
    if line.len() == 0 {
        Some(Seq::empty())
    } else {
        match row_of(line.drop_last()) {
            None => None,
            Some(before) => {
                let c = line.last();
                if c == '_' {
                    Some(before.push(false))
                } else if c == '#' {
                    Some(before.push(true))
                } else if c == ' ' {
                    Some(before)
                } else {
                    None
                }
            },
        }
    }
}

/// A bad character in the beginning of a line spoils the whole line.
proof fn lemma_row_none(line: Seq<char>, k: int)
    requires
        0 <= k <= line.len(),
        row_of(line.take(k)) is None,
    ensures
        row_of(line) is None,
    decreases line.len() - k,
{
    if k < line.len() {
        assert(line.take(k + 1).drop_last() =~= line.take(k));
        lemma_row_none(line, k + 1);
    } else {
        assert(line.take(k) =~= line);
    }
}

/// Reads the tiles that a line shows.
pub fn read_row(line: &str) -> (row: Option<Vec<bool>>)
    ensures
        match row {
            Some(r) => row_of(line@) == Some(r@),
            None => row_of(line@) is None,
        },
{
    let chars = chars_of(line);
    let n = chars.len();
    let ghost s = line@;
    let mut row: Vec<bool> = Vec::new();
    let mut i: usize = 0;
    assert(s.take(0) =~= Seq::<char>::empty());
    while i < n
        invariant
            i <= n,
            n == s.len(),
            s == line@,
            chars@ == s,
            row_of(s.take(i as int)) == Some(row@),
        decreases n - i,
    {
        let c = chars[i];
        proof {
            assert(s.take(i as int + 1).drop_last() =~= s.take(i as int));
            assert(s.take(i as int + 1).last() == c);
        }
        if c == '_' {
            row.push(false);
        } else if c == '#' {
            row.push(true);
        } else if c == ' ' {
        } else {
            proof {
                lemma_row_none(s, i as int + 1);
            }
            return None;
        }
        i += 1;
    }
    assert(s.take(n as int) =~= s);
    Some(row)
}

/// The rows that the lines from the third on show, at most `rows` of them, in
/// the order of the text; `None` where a line cannot be read or has another
/// number of tiles than `columns`.
pub open spec fn rows_of(lines: Seq<Seq<char>>, columns: usize, upto: nat) -> Option<
    Seq<Seq<bool>>,
>
    decreases upto,
{
    if upto == 0 {
        Some(Seq::empty())
    } else {
        match (rows_of(lines, columns, (upto - 1) as nat), row_of(lines[upto as int + 1])) {
            (Some(before), Some(row)) => if row.len() == columns {
                Some(before.push(row))
            } else {
                None
            },
            _ => None,
        }
    }
}

/// A bad row spoils the whole grid.
proof fn lemma_rows_none(lines: Seq<Seq<char>>, columns: usize, at: nat, upto: nat)
    requires
        at <= upto,
        rows_of(lines, columns, at) is None,
    ensures
        rows_of(lines, columns, upto) is None,
    decreases upto,
{
    if at < upto {
        lemma_rows_none(lines, columns, at, (upto - 1) as nat);
    }
}

/// How many rows a description gives: as many as its second line says, or as
/// many lines as follow, if these are fewer.
pub open spec fn rows_given(lines: Seq<Seq<char>>) -> nat {
    if number(lines[1])->0 <= lines.len() - 2 {
        number(lines[1])->0 as nat
    } else {
        (lines.len() - 2) as nat
    }
}

/// The grid that the lines of a description give, empty lines and comments
/// already left out: the first line holds the number of columns, the second
/// the number of rows, then come the rows, the northernmost first. The grid
/// holds them the other way round, so that row 0 is the southernmost.
pub open spec fn grid_of(lines: Seq<Seq<char>>) -> Option<Seq<Seq<bool>>> {
    if lines.len() >= 2 && number(lines[0]) is Some && number(lines[1]) is Some {
        match rows_of(lines, number(lines[0])->0, rows_given(lines)) {
            Some(rows) => Some(rows.reverse()),
            None => None,
        }
    } else {
        None
    }
}

/// The abstract value of a grid.
pub open spec fn grid_view(grid: Seq<Vec<bool>>) -> Seq<Seq<bool>> {
    Seq::new(grid.len(), |i: int| grid[i]@)
}

/// The lines of a description that count, in order.
pub fn counting_lines(lines: &Vec<String>) -> (kept: Vec<String>)
    ensures
        texts(kept@) == counting(texts(lines@), lines.len() as nat),
{
    let ghost all = texts(lines@);
    let mut kept: Vec<String> = Vec::new();
    let mut i: usize = 0;
    assert(texts(kept@) =~= counting(all, 0));
    while i < lines.len()
        invariant
            i <= lines.len(),
            all == texts(lines@),
            texts(kept@) == counting(all, i as nat),
        decreases lines.len() - i,
    {
        let line = lines[i].as_str();
        assert(line@ == all[i as int]);
        if line.unicode_len() > 0 && line.get_char(0) != '/' {
            let ghost before = texts(kept@);
            kept.push(lines[i].clone());
            assert(texts(kept@) =~= before.push(all[i as int]));
        }
        i += 1;
    }
    kept
}

/// Reads the grid from the lines of its description that count.
pub fn read_grid(lines: &Vec<String>) -> (grid: Option<Vec<Vec<bool>>>)
    ensures
        match grid {
            Some(g) => grid_of(texts(lines@)) == Some(grid_view(g@)),
            None => grid_of(texts(lines@)) is None,
        },
{
    if lines.len() < 2 {
        return None;
    }
    let col_count = match parse_usize(lines[0].as_str()) {
        Some(c) => c,
        None => {
            return None;
        },
    };
    let row_count = match parse_usize(lines[1].as_str()) {
        Some(r) => r,
        None => {
            return None;
        },
    };
    let ghost all = texts(lines@);
    let take = if row_count <= lines.len() - 2 {
        row_count
    } else {
        lines.len() - 2
    };
    let mut rows: Vec<Vec<bool>> = Vec::new();
    let mut i: usize = 0;
    assert(grid_view(rows@) =~= Seq::<Seq<bool>>::empty());
    while i < take
        invariant
            i <= take,
            take <= lines.len() - 2,
            lines.len() >= 2,
            all == texts(lines@),
            number(all[0]) == Some(col_count),
            number(all[1]) is Some,
            take == rows_given(all),
            rows.len() == i,
            rows_of(all, col_count, i as nat) == Some(grid_view(rows@)),
        decreases take - i,
    {
        let line = lines[i + 2].as_str();
        assert(line@ == all[i as int + 2]);
        let row = match read_row(line) {
            Some(row) => row,
            None => {
                proof {
                    assert(rows_of(all, col_count, i as nat + 1) is None);
                    lemma_rows_none(all, col_count, i as nat + 1, take as nat);
                }
                return None;
            },
        };
        if row.len() != col_count {
            proof {
                assert(rows_of(all, col_count, i as nat + 1) is None);
                lemma_rows_none(all, col_count, i as nat + 1, take as nat);
            }
            return None;
        }
        let ghost before = grid_view(rows@);
        let ghost added = row@;
        rows.push(row);
        assert(grid_view(rows@) =~= before.push(added));
        i += 1;
    }
    let ghost forward = grid_view(rows@);
    let mut grid: Vec<Vec<bool>> = Vec::with_capacity(take);
    let mut j: usize = take;
    while j > 0
        invariant
            j <= take,
            rows.len() == take,
            forward == grid_view(rows@),
            grid.len() == take - j,
            forall|k: int| 0 <= k < grid.len() ==> (#[trigger] grid[k])@ == forward[take - 1 - k],
        decreases j,
    {
        j -= 1;
        let row = rows[j].clone();
        assert(row@ =~= rows[j as int]@);
        assert(forward[j as int] == rows[j as int]@);
        grid.push(row);
    }
    assert(grid_view(grid@) =~= forward.reverse());
    Some(grid)
}

/// Reads the description of a grid: its lines that count are read as a grid.
pub fn read_description(lines: &Vec<String>) -> (grid: Option<Vec<Vec<bool>>>)
    ensures
        match grid {
            Some(g) => grid_of(counting(texts(lines@), lines.len() as nat)) == Some(grid_view(g@)),
            None => grid_of(counting(texts(lines@), lines.len() as nat)) is None,
        },
{
    let kept = counting_lines(lines);
    read_grid(&kept)
}

} // verus!
