//! Numbers written in decimal, right-aligned in fields of three.
use vstd::prelude::*;

verus! {

/// The character of decimal digit `d`.
pub open spec fn digit_char(d: int) -> char {
    (48 + d) as char
}

/// The decimal digits of `n`, most significant first, without leading zeros.
pub open spec fn decimal(n: nat) -> Seq<char>
    decreases n,
{
    if n < 10 {
        seq![digit_char(n as int)]
    } else {
        decimal(n / 10).push(digit_char((n % 10) as int))
    }
}

/// `k` spaces.
pub open spec fn spaces(k: int) -> Seq<char> {
    Seq::new(if k < 0 {
        0
    } else {
        k as nat
    }, |i: int| ' ')
}

/// The number of decimal digits of `n`.
pub open spec fn digit_count(n: nat) -> int {
    if n < 10 {
        1
    } else if n < 100 {
        2
    } else if n < 1000 {
        3
    } else {
        4
    }
}

/// `n` right-aligned in a field of three characters.
pub open spec fn padded(n: nat) -> Seq<char> {
    spaces(3 - digit_count(n)) + decimal(n)
}

/// Appends the digit `d`.
fn append_digit(out: &mut String, d: u32)
    requires
        d < 10,
    ensures
        final(out)@ == old(out)@.push(digit_char(d as int)),
{
    let s: &str = match d {
        0 => "0",
        1 => "1",
        2 => "2",
        3 => "3",
        4 => "4",
        5 => "5",
        6 => "6",
        7 => "7",
        8 => "8",
        _ => "9",
    };
    proof {
        reveal_strlit("0");
        reveal_strlit("1");
        reveal_strlit("2");
        reveal_strlit("3");
        reveal_strlit("4");
        reveal_strlit("5");
        reveal_strlit("6");
        reveal_strlit("7");
        reveal_strlit("8");
        reveal_strlit("9");
    }
    out.append(s);
}

/// Appends `n` right-aligned in a field of three; the number must have at
/// most three digits.
pub fn append_padded(out: &mut String, n: usize)
    requires
        n < 1000,
    ensures
        final(out)@ == old(out)@ + padded(n as nat),
{
    proof {
        reveal_strlit(" ");
        reveal_strlit("  ");
        reveal_strlit("0");
    }
    let ghost o = out@;
    if n < 10 {
        out.append("  ");
        append_digit(out, n as u32);
        proof {
            assert(decimal(n as nat) == seq![digit_char(n as int)]);
            assert(out@ =~= o + padded(n as nat));
        }
    } else if n < 100 {
        out.append(" ");
        append_digit(out, (n / 10) as u32);
        append_digit(out, (n % 10) as u32);
        proof {
            let m = (n / 10) as nat;
            assert(decimal(m) == seq![digit_char(m as int)]);
            assert(decimal(n as nat) == decimal(m).push(digit_char((n % 10) as int)));
            assert(out@ =~= o + padded(n as nat));
        }
    } else {
        append_digit(out, (n / 100) as u32);
        append_digit(out, ((n / 10) % 10) as u32);
        append_digit(out, (n % 10) as u32);
        proof {
            let m = (n / 10) as nat;
            let h = (m / 10) as nat;
            assert(h == n / 100);
            assert(decimal(h) == seq![digit_char(h as int)]);
            assert(decimal(m) == decimal(h).push(digit_char((m % 10) as int)));
            assert(decimal(n as nat) == decimal(m).push(digit_char((n % 10) as int)));
            assert(out@ =~= o + padded(n as nat));
        }
    }
}

/// A separator: `+` and five dashes, `k` times.
pub open spec fn rule(k: int) -> Seq<char>
    decreases k,
{
    if k <= 0 {
        Seq::empty()
    } else {
        rule(k - 1) + seq!['+', '-', '-', '-', '-', '-']
    }
}

/// The column headers of the first `k` tables: a bar, the table number from
/// one, two spaces.
pub open spec fn header_cells(k: int) -> Seq<char>
    decreases k,
{
    if k <= 0 {
        Seq::empty()
    } else {
        header_cells(k - 1) + seq!['|'] + padded(k as nat) + spaces(2)
    }
}

/// A cell of the grid: a player and two spaces, or five spaces.
pub open spec fn cell_text(c: Option<int>) -> Seq<char> {
    match c {
        Some(x) => padded(x as nat) + spaces(2),
        None => spaces(5),
    }
}

/// Row `i` of the first `k` tables of `round`, each cell after a bar; `cells`
/// gives the `i`-th player of a table in a round.
pub open spec fn row_cells(cells: spec_fn(int, int, int) -> Option<int>, round: int, i: int, k: int) -> Seq<char>
    decreases k,
{
    if k <= 0 {
        Seq::empty()
    } else {
        row_cells(cells, round, i, k - 1) + seq!['|'] + cell_text(cells(round, k - 1, i))
    }
}

/// The start of row `i` of `round`, of `rows` rows: the round number from one
/// on the middle row, blanks on the others.
pub open spec fn row_lead(rows: int, round: int, i: int) -> Seq<char> {
    if i == rows / 2 {
        seq!['\n'] + padded((round + 1) as nat) + spaces(2)
    } else {
        seq!['\n'] + spaces(5)
    }
}

/// The first `k` rows of `round`, of `rows` rows over `tables` tables.
pub open spec fn rows_text(cells: spec_fn(int, int, int) -> Option<int>, tables: int, rows: int, round: int, k: int) -> Seq<
    char,
>
    decreases k,
{
    if k <= 0 {
        Seq::empty()
    } else {
        rows_text(cells, tables, rows, round, k - 1) + row_lead(rows, round, k - 1) + row_cells(
            cells,
            round,
            k - 1,
            tables,
        )
    }
}

/// The first `k` rounds, each under a separator line.
pub open spec fn blocks(cells: spec_fn(int, int, int) -> Option<int>, tables: int, rows: int, k: int) -> Seq<char>
    decreases k,
{
    if k <= 0 {
        Seq::empty()
    } else {
        blocks(cells, tables, rows, k - 1) + seq!['\n', '-', '-', '-', '-', '-'] + rule(tables) + rows_text(
            cells,
            tables,
            rows,
            k - 1,
            rows,
        )
    }
}

/// A schedule as a text grid: a header with the table numbers, then for each
/// of as many rounds as tables a separator and `rows` rows of players.
pub open spec fn grid_text(cells: spec_fn(int, int, int) -> Option<int>, tables: int, rows: int) -> Seq<char> {
    spaces(5) + header_cells(tables) + blocks(cells, tables, rows, tables)
}

} // verus!
