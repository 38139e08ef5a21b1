//! Comma-separated text: fields, quoting and line ends as RFC 4180 has them.
use vstd::prelude::*;
use crate::text;

verus! {

/// Why a text is no table.
#[derive(Clone, Copy, Debug, PartialEq, Eq, Structural)]
pub enum CsvFault {
    /// A quoted field is not closed.
    OpenQuote,
    /// Something stands between the closing quote and the end of the field.
    AfterQuote,
}

/// A line ends at `i`.
pub open spec fn ends_line(s: Seq<char>, i: int) -> bool {
    0 <= i < s.len() && (s[i] == '\n' || (s[i] == '\r' && i + 1 < s.len() && s[i + 1] == '\n'))
}

/// A field ends at `i`.
pub open spec fn ends_field(s: Seq<char>, i: int) -> bool {
    i >= s.len() || s[i] == ',' || ends_line(s, i)
}

/// Where the bare field at `i` ends.
pub open spec fn bare_end(s: Seq<char>, i: int) -> int
    decreases s.len() - i,
{
    if ends_field(s, i) {
        i
    } else {
        bare_end(s, i + 1)
    }
}

/// The rest of a quoted field from `i` on, behind `acc`, and where it ends.
pub open spec fn quoted_from(s: Seq<char>, i: int, acc: Seq<char>) -> Result<(Seq<char>, int), CsvFault>
    decreases s.len() - i,
{
    if i >= s.len() {
        Err(CsvFault::OpenQuote)
    } else if s[i] != '"' {
        quoted_from(s, i + 1, acc.push(s[i]))
    } else if i + 1 < s.len() && s[i + 1] == '"' {
        quoted_from(s, i + 2, acc.push('"'))
    } else if ends_field(s, i + 1) {
        Ok((acc, i + 1))
    } else {
        Err(CsvFault::AfterQuote)
    }
}

/// The field at `i`, and where it ends.
pub open spec fn field_at(s: Seq<char>, i: int) -> Result<(Seq<char>, int), CsvFault> {
    if i < s.len() && s[i] == '"' {
        quoted_from(s, i + 1, Seq::empty())
    } else {
        Ok((s.subrange(i, bare_end(s, i)), bare_end(s, i)))
    }
}

/// Where the line after position `i` starts.
pub open spec fn next_line(s: Seq<char>, i: int) -> int {
    if i >= s.len() {
        s.len() as int
    } else if s[i] == '\n' {
        i + 1
    } else {
        i + 2
    }
}

/// The row at `i` behind the fields `acc`, and where the next one starts.
pub open spec fn row_at(s: Seq<char>, i: int, acc: Seq<Seq<char>>) -> Result<(Seq<Seq<char>>, int), CsvFault>
    decreases s.len() - i,
{
    match field_at(s, i) {
        Err(e) => Err(e),
        Ok((f, j)) => if i <= j < s.len() && s[j] == ',' {
            row_at(s, j + 1, acc.push(f))
        } else {
            Ok((acc.push(f), next_line(s, j)))
        },
    }
}

/// The rows from `i` on, behind the rows `acc`.
pub open spec fn rows_from(s: Seq<char>, i: int, acc: Seq<Seq<Seq<char>>>) -> Result<Seq<Seq<Seq<char>>>, CsvFault>
    decreases s.len() - i,
{
    if i >= s.len() {
        Ok(acc)
    } else {
        match row_at(s, i, Seq::empty()) {
            Err(e) => Err(e),
            Ok((row, next)) => if i < next <= s.len() {
                rows_from(s, next, acc.push(row))
            } else {
                Ok(acc.push(row))
            },
        }
    }
}

/// The contents of a row.
pub open spec fn row_view(v: Seq<Vec<char>>) -> Seq<Seq<char>> {
    Seq::new(v.len(), |i: int| v[i]@)
}

/// The contents of a table.
pub open spec fn table_view(v: Seq<Vec<Vec<char>>>) -> Seq<Seq<Seq<char>>> {
    Seq::new(v.len(), |i: int| row_view(v[i]@))
}

proof fn bare_bounds(s: Seq<char>, i: int)
    requires
        0 <= i <= s.len(),
    ensures
        i <= bare_end(s, i) <= s.len(),
        ends_field(s, bare_end(s, i)),
    decreases s.len() - i,
{
    if !ends_field(s, i) {
        bare_bounds(s, i + 1);
    }
}

fn at_line_end(s: &Vec<char>, i: usize) -> (r: bool)
    ensures
        r == ends_line(s@, i as int),
{
    let n: usize = s.len();
    i < n && (s[i] == '\n' || (s[i] == '\r' && i < n - 1 && s[i + 1] == '\n'))
}

fn at_field_end(s: &Vec<char>, i: usize) -> (r: bool)
    ensures
        r == ends_field(s@, i as int),
{
    i >= s.len() || s[i] == ',' || at_line_end(s, i)
}

fn read_quoted(s: &Vec<char>, from: usize) -> (r: Result<(Vec<char>, usize), CsvFault>)
    requires
        0 < from <= s@.len(),
    ensures
        match r {
            Ok((f, j)) => quoted_from(s@, from as int, Seq::empty()) == Ok::<(Seq<char>, int), CsvFault>(
                (f@, j as int),
            ) && from <= j <= s@.len() && ends_field(s@, j as int),
            Err(e) => quoted_from(s@, from as int, Seq::empty()) == Err::<(Seq<char>, int), CsvFault>(e),
        },
{
    let n: usize = s.len();
    let mut acc: Vec<char> = Vec::new();
    let mut i: usize = from;
    assert(acc@ =~= Seq::<char>::empty());
    while i < n
        invariant
            from <= i <= n,
            n == s@.len(),
            quoted_from(s@, from as int, Seq::empty()) == quoted_from(s@, i as int, acc@),
        decreases n - i,
    {
        if s[i] != '"' {
            acc.push(s[i]);
            i = i + 1;
        } else if i < n - 1 && s[i + 1] == '"' {
            acc.push('"');
            i = i + 2;
        } else if at_field_end(s, i + 1) {
            return Ok((acc, i + 1));
        } else {
            return Err(CsvFault::AfterQuote);
        }
    }
    Err(CsvFault::OpenQuote)
}

fn read_field(s: &Vec<char>, from: usize) -> (r: Result<(Vec<char>, usize), CsvFault>)
    requires
        from <= s@.len(),
    ensures
        match r {
            Ok((f, j)) => field_at(s@, from as int) == Ok::<(Seq<char>, int), CsvFault>((f@, j as int))
                && from <= j <= s@.len() && ends_field(s@, j as int),
            Err(e) => field_at(s@, from as int) == Err::<(Seq<char>, int), CsvFault>(e),
        },
{
    let n: usize = s.len();
    if from < n && s[from] == '"' {
        return read_quoted(s, from + 1);
    }
    let mut i: usize = from;
    while i < n && !at_field_end(s, i)
        invariant
            from <= i <= n,
            n == s@.len(),
            bare_end(s@, from as int) == bare_end(s@, i as int),
        decreases n - i,
    {
        i = i + 1;
    }
    proof {
        bare_bounds(s@, from as int);
    }
    Ok((text::part(s, from, i), i))
}

fn read_row(s: &Vec<char>, from: usize) -> (r: Result<(Vec<Vec<char>>, usize), CsvFault>)
    requires
        from < s@.len(),
    ensures
        match r {
            Ok((row, next)) => row_at(s@, from as int, Seq::empty()) == Ok::<
                (Seq<Seq<char>>, int),
                CsvFault,
            >((row_view(row@), next as int)) && from < next <= s@.len(),
            Err(e) => row_at(s@, from as int, Seq::empty()) == Err::<(Seq<Seq<char>>, int), CsvFault>(e),
        },
{
    let n: usize = s.len();
    let mut row: Vec<Vec<char>> = Vec::new();
    let mut i: usize = from;
    assert(row_view(row@) =~= Seq::<Seq<char>>::empty());
    while i <= n
        invariant
            from <= i <= n,
            from < n,
            n == s@.len(),
            row_at(s@, from as int, Seq::empty()) == row_at(s@, i as int, row_view(row@)),
        decreases n - i,
    {
        let ghost row0 = row@;
        let (f, j) = match read_field(s, i) {
            Ok(v) => v,
            Err(e) => {
                return Err(e);
            },
        };
        let ghost fv = f@;
        row.push(f);
        assert(row_view(row@) =~= row_view(row0).push(fv));
        if j < n && s[j] == ',' {
            i = j + 1;
        } else {
            let next: usize = if j >= n {
                n
            } else if s[j] == '\n' {
                j + 1
            } else {
                j + 2
            };
            return Ok((row, next));
        }
    }
    Ok((row, n))
}

/// Splits a text into rows of fields.
pub fn parse_csv(s: &Vec<char>) -> (r: Result<Vec<Vec<Vec<char>>>, CsvFault>)
    ensures
        match r {
            Ok(t) => rows_from(s@, 0, Seq::empty()) == Ok::<Seq<Seq<Seq<char>>>, CsvFault>(
                table_view(t@),
            ),
            Err(e) => rows_from(s@, 0, Seq::empty()) == Err::<Seq<Seq<Seq<char>>>, CsvFault>(e),
        },
{
    let n: usize = s.len();
    let mut rows: Vec<Vec<Vec<char>>> = Vec::new();
    let mut i: usize = 0;
    assert(table_view(rows@) =~= Seq::<Seq<Seq<char>>>::empty());
    while i < n
        invariant
            i <= n,
            n == s@.len(),
            rows_from(s@, 0, Seq::empty()) == rows_from(s@, i as int, table_view(rows@)),
        decreases n - i,
    {
        let ghost rows0 = rows@;
        match read_row(s, i) {
            Ok((row, next)) => {
                let ghost rv = row_view(row@);
                rows.push(row);
                assert(table_view(rows@) =~= table_view(rows0).push(rv));
                i = next;
            },
            Err(e) => {
                return Err(e);
            },
        }
    }
    Ok(rows)
}

// ---- bare rows ------------------------------------------------------------------------

/// A field that needs no quotes.
pub open spec fn is_bare(f: Seq<char>) -> bool {
    forall|i: int| 0 <= i < f.len() ==> is_bare_char(#[trigger] f[i])
}

/// A character that ends nothing and opens nothing.
pub open spec fn is_bare_char(c: char) -> bool {
    c != ',' && c != '"' && c != '\n' && c != '\r'
}

/// The field `f` stands at `i`.
pub open spec fn stands(s: Seq<char>, i: int, f: Seq<char>) -> bool {
    text::matches_at(s, f, i)
}

/// A bare field that stands before the end of a field is read as it is.
pub proof fn bare_field_is_read(s: Seq<char>, i: int, f: Seq<char>)
    requires
        stands(s, i, f),
        is_bare(f),
        ends_field(s, i + f.len()),
        f.len() == 0 ==> i >= s.len() || s[i] != '"',
    ensures
        field_at(s, i) == Ok::<(Seq<char>, int), CsvFault>((f, i + f.len())),
{
    if f.len() > 0 {
        assert(s.subrange(i, i + f.len())[0] == s[i]);
        assert(is_bare_char(f[0]));
    }
    bare_end_is(s, i, i + f.len() as int, f, 0);
}

proof fn bare_end_is(s: Seq<char>, i: int, e: int, f: Seq<char>, k: int)
    requires
        stands(s, i, f),
        is_bare(f),
        e == i + f.len(),
        ends_field(s, e),
        0 <= k <= f.len(),
    ensures
        bare_end(s, i + k) == e,
    decreases f.len() - k,
{
    if k < f.len() {
        assert(s.subrange(i, i + f.len())[k] == s[i + k]);
        assert(is_bare_char(f[k]));
        bare_end_is(s, i, e, f, k + 1);
    }
}

/// A field between quotes, with its own quotes doubled.
pub open spec fn quoted(f: Seq<char>, n: int) -> Seq<char>
    decreases n,
{
    if n <= 0 {
        Seq::empty()
    } else if f[n - 1] == '"' {
        quoted(f, n - 1) + seq!['"', '"']
    } else {
        quoted(f, n - 1) + seq![f[n - 1]]
    }
}

proof fn quoted_upto(s: Seq<char>, f: Seq<char>, k: int, i: int)
    requires
        0 <= k <= f.len(),
        0 <= i,
        i + quoted(f, k).len() <= s.len(),
        forall|j: int| 0 <= j < quoted(f, k).len() ==> #[trigger] quoted(f, k)[j] == s[i + j],
    ensures
        quoted_from(s, i, Seq::empty()) == quoted_from(s, i + quoted(f, k).len(), f.subrange(0, k)),
    decreases k,
{
    if k > 0 {
        let before = quoted(f, k - 1);
        let now = quoted(f, k);
        assert forall|j: int| 0 <= j < before.len() implies #[trigger] before[j] == s[i + j] by {
            assert(now[j] == before[j]);
        }
        quoted_upto(s, f, k - 1, i);
        let at = i + before.len();
        assert(f.subrange(0, k) =~= f.subrange(0, k - 1).push(f[k - 1]));
        assert(now[before.len() as int] == s[i + before.len()]);
        if f[k - 1] == '"' {
            assert(now[before.len() as int + 1] == s[i + (before.len() as int + 1)]);
        }
    } else {
        assert(f.subrange(0, 0) =~= Seq::<char>::empty());
    }
}

/// Any field, whatever it holds, is read back from between quotes with its own
/// quotes doubled.
pub proof fn quoted_field_is_read(s: Seq<char>, i: int, f: Seq<char>)
    requires
        0 <= i,
        ({
            let q = quoted(f, f.len() as int);
            let e = i + 1 + q.len();
            &&& e < s.len()
            &&& s[i] == '"'
            &&& s.subrange(i + 1, e) == q
            &&& s[e] == '"'
            &&& e + 1 == s.len() || s[e + 1] == ',' || s[e + 1] == '\n' || (s[e + 1] == '\r' && e + 2 < s.len() && s[e + 2]
                == '\n')
        }),
    ensures
        field_at(s, i) == Ok::<(Seq<char>, int), CsvFault>((f, i + 2 + quoted(f, f.len() as int).len())),
{
    let q = quoted(f, f.len() as int);
    let e = i + 1 + q.len();
    assert forall|j: int| 0 <= j < q.len() implies #[trigger] q[j] == s[i + 1 + j] by {
        assert(s.subrange(i + 1, e)[j] == s[i + 1 + j]);
    }
    quoted_upto(s, f, f.len() as int, i + 1);
    assert(f.subrange(0, f.len() as int) =~= f);
    assert(ends_field(s, e + 1));
}

} // verus!
