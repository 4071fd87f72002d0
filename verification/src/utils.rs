//! Text laid out in columns, and the short names of types.

use itertools::Itertools;
use vstd::prelude::*;
use vstd::utf8::encode_utf8;

verus! {

/// The text `cell`, filled up with spaces at its end to `width` characters
/// where it is shorter.
pub open spec fn padded(cell: Seq<char>, width: nat) -> Seq<char> {
    if cell.len() >= width {
        cell
    } else {
        cell + Seq::new((width - cell.len()) as nat, |i: int| ' ')
    }
}

/// The texts `parts` one after the other, with `sep` between each two.
pub open spec fn joined(parts: Seq<Seq<char>>, sep: Seq<char>) -> Seq<char>
    decreases parts.len(),
{
    if parts.len() == 0 {
        Seq::empty()
    } else if parts.len() == 1 {
        parts[0]
    } else {
        joined(parts.drop_last(), sep) + sep + parts.last()
    }
}

/// The texts of `strings`.
pub open spec fn texts(strings: Seq<String>) -> Seq<Seq<char>> {
    Seq::new(strings.len(), |i: int| strings[i]@)
}

/// The length in bytes of the longest of the cells at `column` in the first
/// `n` of `rows`.
pub open spec fn column_width<const N: usize>(rows: Seq<[String; N]>, column: int, n: int) -> usize
    decreases n,
{
    if n <= 0 || n > rows.len() {
        0
    } else {
        let rest = column_width(rows, column, n - 1);
        let here = encode_utf8(rows[n - 1]@[column]@).len() as usize;
        if here > rest {
            here
        } else {
            rest
        }
    }
}

/// The first `n` cells of `row`, each filled up to the width of its column
/// in `rows`.
pub open spec fn padded_cells<const N: usize>(
    rows: Seq<[String; N]>,
    row: [String; N],
    n: int,
) -> Seq<Seq<char>> {
    Seq::new(n as nat, |i: int| padded(row@[i]@, column_width(rows, i, rows.len() as int) as nat))
}

/// The first `n` of `rows` as lines: the cells of each, filled up and put
/// one after the other.
pub open spec fn lines<const N: usize>(rows: Seq<[String; N]>, n: int) -> Seq<Seq<char>> {
    Seq::new(n as nat, |j: int| joined(padded_cells(rows, rows[j], N as int), Seq::empty()))
}

/// `Itertools::join` on the strings of `parts`: one string that holds them
/// one after the other, with `sep` between each two, and that is empty
/// where there are none.
#[verifier::external_body]
fn join(parts: &Vec<String>, sep: &str) -> (r: String)
    ensures
        r@ == joined(texts(parts@), sep@),
{
    parts.iter().join(sep)
}

/// `format!` with a width: the string `cell`, followed by as many spaces as
/// it has characters less than `width`. The formatter takes no width above
/// `u16::MAX`.
#[verifier::external_body]
fn pad(cell: &str, width: usize) -> (r: String)
    requires
        width <= u16::MAX,
    ensures
        r@ == padded(cell@, width as nat),
{
    format!("{cell:width$}")
}

/// Whether no cell of `rows` is longer than the widest column that
/// `format_in_columns` lays out, which is `u16::MAX` bytes.
pub fn columns_fit<const N: usize>(rows: &[[String; N]]) -> (r: bool)
    ensures
        r == forall|c: int| 0 <= c < N ==> column_width(rows@, c, rows@.len() as int) <= u16::MAX,
{
    let n = rows.len();
    let mut i: usize = 0;
    while i < N
        invariant
            n == rows@.len(),
            i <= N,
            forall|c: int| 0 <= c < i ==> column_width(rows@, c, n as int) <= u16::MAX,
        decreases N - i,
    {
        let mut width: usize = 0;
        let mut j: usize = 0;
        while j < n
            invariant
                n == rows@.len(),
                i < N,
                j <= n,
                width == column_width(rows@, i as int, j as int),
            decreases n - j,
        {
            let cell: &String = &rows[j][i];
            assert(*cell == rows@[j as int]@[i as int]);
            let len = cell.as_str().len();
            assert(len == encode_utf8(cell@).len() as usize);
            if len > width {
                width = len;
            }
            j += 1;
        }
        if width > 0xffff {
            return false;
        }
        i += 1;
    }
    true
}

/// Formats a list of rows of equal length into a columned layout: each
/// cell is filled up with spaces to the width of its column, which is the
/// length in bytes of its longest cell; the cells of a row stand one after
/// the other, and the rows are separated by line breaks.
pub fn format_in_columns<const N: usize>(rows: &[[String; N]]) -> (r: String)
    requires
        rows@.len() > 0 || N == 0,
        forall|c: int| 0 <= c < N ==> column_width(rows@, c, rows@.len() as int) <= u16::MAX,
    ensures
        r@ == joined(lines(rows@, rows@.len() as int), seq!['\n']),
{
    let n = rows.len();
    let mut widths: Vec<usize> = Vec::new();
    let mut i: usize = 0;
    while i < N
        invariant
            n == rows@.len(),
            i <= N,
            widths@.len() == i,
            forall|c: int| 0 <= c < i ==> #[trigger] widths@[c] == column_width(rows@, c, n as int),
        decreases N - i,
    {
        let mut width: usize = 0;
        let mut j: usize = 0;
        while j < n
            invariant
                n == rows@.len(),
                i < N,
                j <= n,
                width == column_width(rows@, i as int, j as int),
            decreases n - j,
        {
            let cell: &String = &rows[j][i];
            assert(*cell == rows@[j as int]@[i as int]);
            let len = cell.as_str().len();
            assert(len == encode_utf8(cell@).len() as usize);
            if len > width {
                width = len;
            }
            j += 1;
        }
        widths.push(width);
        i += 1;
    }
    let mut all: Vec<String> = Vec::new();
    let mut j: usize = 0;
    while j < n
        invariant
            n == rows@.len(),
            j <= n,
            widths@.len() == N,
            forall|c: int| 0 <= c < N ==> #[trigger] widths@[c] == column_width(rows@, c, n as int),
            forall|c: int| 0 <= c < N ==> column_width(rows@, c, n as int) <= u16::MAX,
            all@.len() == j,
            texts(all@) == lines(rows@, j as int),
        decreases n - j,
    {
        let mut cells: Vec<String> = Vec::new();
        let mut i: usize = 0;
        while i < N
            invariant
                n == rows@.len(),
                j < n,
                i <= N,
                widths@.len() == N,
                forall|c: int|
                    0 <= c < N ==> #[trigger] widths@[c] == column_width(rows@, c, n as int),
                forall|c: int| 0 <= c < N ==> column_width(rows@, c, n as int) <= u16::MAX,
                cells@.len() == i,
                texts(cells@) == padded_cells(rows@, rows@[j as int], i as int),
            decreases N - i,
        {
            let ghost before = cells@;
            let cell: &String = &rows[j][i];
            assert(*cell == rows@[j as int]@[i as int]);
            let filled = pad(cell.as_str(), widths[i]);
            assert(filled@ == padded(
                rows@[j as int]@[i as int]@,
                column_width(rows@, i as int, n as int) as nat,
            ));
            cells.push(filled);
            i += 1;
            assert forall|c: int| 0 <= c < i implies #[trigger] texts(cells@)[c] == padded_cells(
                rows@,
                rows@[j as int],
                i as int,
            )[c] by {
                if c < i - 1 {
                    assert(texts(before)[c] == padded_cells(rows@, rows@[j as int], i - 1)[c]);
                    assert(cells@[c] == before[c]);
                }
            }
            assert(texts(cells@) =~= padded_cells(rows@, rows@[j as int], i as int));
        }
        proof {
            reveal_strlit("");
            assert(""@ =~= Seq::<char>::empty());
        }
        let ghost before = all@;
        let line = join(&cells, "");
        assert(line@ == joined(padded_cells(rows@, rows@[j as int], N as int), Seq::empty()));
        all.push(line);
        j += 1;
        assert forall|a: int| 0 <= a < j implies #[trigger] texts(all@)[a] == lines(
            rows@,
            j as int,
        )[a] by {
            if a < j - 1 {
                assert(texts(before)[a] == lines(rows@, j - 1)[a]);
                assert(all@[a] == before[a]);
            }
        }
        assert(texts(all@) =~= lines(rows@, j as int));
    }
    proof {
        reveal_strlit("\n");
        assert("\n"@ =~= seq!['\n']);
    }
    join(&all, "\n")
}

/// The stretches of `s` between each two `c`, and before the first and
/// behind the last: one more than `s` has of `c`.
pub open spec fn pieces(s: Seq<char>, c: char) -> Seq<Seq<char>>
    decreases s.len(),
{
    if s.len() == 0 {
        seq![Seq::empty()]
    } else {
        let before = pieces(s.drop_last(), c);
        if s.last() == c {
            before.push(Seq::empty())
        } else {
            before.drop_last().push(before.last().push(s.last()))
        }
    }
}

/// What follows the last `::` of `s`, and all of `s` where it has none.
/// The text is read from its start, and no colon counts for two
/// separators: a colon closes a separator where the colon before it is
/// left over from those before.
pub open spec fn last_segment(s: Seq<char>) -> Seq<char>
    decreases s.len(),
{
    if s.len() == 0 {
        s
    } else {
        let before = last_segment(s.drop_last());
        if s.last() == ':' && before.len() > 0 && before.last() == ':' {
            Seq::empty()
        } else {
            before.push(s.last())
        }
    }
}

/// The last segment of each of `parts`.
pub open spec fn last_segments(parts: Seq<Seq<char>>) -> Seq<Seq<char>> {
    Seq::new(parts.len(), |i: int| last_segment(parts[i]))
}

/// The name `full` of a type without the modules that it and its
/// arguments lie in: each stretch between two `<` is cut down to what
/// follows its last `::`.
pub open spec fn shortened(full: Seq<char>) -> Seq<char> {
    joined(last_segments(pieces(full, '<')), seq!['<'])
}

/// The stretches of `s` between each two `c`.
fn split(s: &str, c: char) -> (r: Vec<String>)
    ensures
        texts(r@) == pieces(s@, c),
{
    let n = s.unicode_len();
    let mut done: Vec<String> = Vec::new();
    let mut start: usize = 0;
    let mut i: usize = 0;
    assert(s@.take(0) =~= Seq::<char>::empty());
    assert(s@.subrange(0, 0) =~= Seq::<char>::empty());
    assert(texts(done@).push(s@.subrange(0, 0)) =~= seq![Seq::<char>::empty()]);
    while i < n
        invariant
            n == s@.len(),
            start <= i <= n,
            pieces(s@.take(i as int), c) == texts(done@).push(
                s@.subrange(start as int, i as int),
            ),
        decreases n - i,
    {
        let ch = s.get_char(i);
        let ghost open = s@.subrange(start as int, i as int);
        let ghost closed = texts(done@);
        proof {
            assert(s@.take(i + 1).drop_last() =~= s@.take(i as int));
            assert(s@.take(i + 1).last() == ch);
            assert(closed.push(open).drop_last() =~= closed);
        }
        if ch == c {
            done.push(String::from_str(s.substring_char(start, i)));
            start = i + 1;
            proof {
                assert(texts(done@) =~= closed.push(open));
                assert(s@.subrange(start as int, i + 1) =~= Seq::<char>::empty());
            }
        } else {
            proof {
                assert(s@.subrange(start as int, i + 1) =~= open.push(ch));
            }
        }
        i += 1;
    }
    let ghost closed = texts(done@);
    done.push(String::from_str(s.substring_char(start, n)));
    proof {
        assert(s@.take(n as int) =~= s@);
        assert(texts(done@) =~= closed.push(s@.subrange(start as int, n as int)));
    }
    done
}

/// What follows the last `::` of `s`.
fn last_of(s: &str) -> (r: String)
    ensures
        r@ == last_segment(s@),
{
    let n = s.unicode_len();
    let mut start: usize = 0;
    let mut i: usize = 0;
    assert(s@.take(0) =~= Seq::<char>::empty());
    assert(s@.subrange(0, 0) =~= Seq::<char>::empty());
    while i < n
        invariant
            n == s@.len(),
            start <= i <= n,
            last_segment(s@.take(i as int)) == s@.subrange(start as int, i as int),
        decreases n - i,
    {
        let ch = s.get_char(i);
        let ghost open = s@.subrange(start as int, i as int);
        proof {
            assert(s@.take(i + 1).drop_last() =~= s@.take(i as int));
            assert(s@.take(i + 1).last() == ch);
            if start < i {
                assert(open.last() == s@[i - 1]);
            }
        }
        if ch == ':' && start < i && s.get_char(i - 1) == ':' {
            start = i + 1;
            proof {
                assert(s@.subrange(start as int, i + 1) =~= Seq::<char>::empty());
            }
        } else {
            proof {
                assert(s@.subrange(start as int, i + 1) =~= open.push(ch));
            }
        }
        i += 1;
    }
    proof {
        assert(s@.take(n as int) =~= s@);
    }
    String::from_str(s.substring_char(start, n))
}

/// The name `full` of a type without the modules that it and its
/// arguments lie in.
pub fn short_name(full: &str) -> (r: String)
    ensures
        r@ == shortened(full@),
{
    let parts = split(full, '<');
    let mut names: Vec<String> = Vec::new();
    let mut i: usize = 0;
    while i < parts.len()
        invariant
            i <= parts@.len(),
            names@.len() == i,
            forall|j: int| 0 <= j < i ==> (#[trigger] names@[j])@ == last_segment(parts@[j]@),
        decreases parts@.len() - i,
    {
        names.push(last_of(parts[i].as_str()));
        i += 1;
    }
    proof {
        assert(texts(names@) =~= last_segments(texts(parts@)));
        reveal_strlit("<");
        assert("<"@ =~= seq!['<']);
    }
    join(&names, "<")
}

} // verus!
