//! Reading the resident set out of a process status text.
use vstd::prelude::*;
use crate::text;

verus! {

/// Most kilobytes that can be told in bytes.
pub const MAX_KB: u64 = 0x3f_ffff_ffff_ffff;

/// Where the line that holds position `i` ends.
pub open spec fn line_end(s: Seq<char>, i: int) -> int
    decreases s.len() - i,
{
    if i >= s.len() || s[i] == '\n' {
        i
    } else {
        line_end(s, i + 1)
    }
}

/// The text up to its first white space.
pub open spec fn first_word(s: Seq<char>) -> Seq<char>
    decreases s.len(),
{
    if s.len() == 0 || text::is_space(s[0]) {
        Seq::empty()
    } else {
        seq![s[0]] + first_word(s.subrange(1, s.len() as int))
    }
}

/// The bytes that the text behind the name states, in kilobytes.
pub open spec fn stated(s: Seq<char>) -> Option<int> {
    match text::number_of(first_word(text::trimmed(s)), MAX_KB as int) {
        Ok(kb) => Some(kb * 1024),
        Err(_) => None,
    }
}

/// What the first `VmRSS:` line from `i` on states.
pub open spec fn rss_from(s: Seq<char>, i: int) -> Option<int>
    decreases s.len() + 1 - i,
{
    if i < 0 || i >= s.len() {
        None
    } else {
        let e = line_end(s, i);
        if e < i || e > s.len() {
            None
        } else {
            let line = s.subrange(i, e);
            if text::matches_at(line, "VmRSS:"@, 0) {
                stated(line.subrange(6, line.len() as int))
            } else {
                rss_from(s, e + 1)
            }
        }
    }
}

proof fn line_end_bounds(s: Seq<char>, i: int)
    requires
        0 <= i <= s.len(),
    ensures
        i <= line_end(s, i) <= s.len(),
    decreases s.len() - i,
{
    if i < s.len() && s[i] != '\n' {
        line_end_bounds(s, i + 1);
    }
}

fn find_line_end(s: &Vec<char>, from: usize) -> (r: usize)
    requires
        from <= s@.len(),
    ensures
        r == line_end(s@, from as int),
        from <= r <= s@.len(),
{
    let mut i: usize = from;
    while i < s.len() && s[i] != '\n'
        invariant
            from <= i <= s@.len(),
            line_end(s@, from as int) == line_end(s@, i as int),
        decreases s@.len() - i,
    {
        i = i + 1;
    }
    i
}

fn take_word(s: &Vec<char>) -> (r: Vec<char>)
    ensures
        r@ == first_word(s@),
{
    let n: usize = s.len();
    let mut out: Vec<char> = Vec::new();
    let mut i: usize = 0;
    assert(s@.subrange(0, n as int) =~= s@);
    while i < n && !text::space(s[i])
        invariant
            i <= n == s@.len(),
            first_word(s@) == out@ + first_word(s@.subrange(i as int, n as int)),
        decreases n - i,
    {
        let ghost t = s@.subrange(i as int, n as int);
        let ghost before = out@;
        out.push(s[i]);
        proof {
            let rest = s@.subrange(i + 1, n as int);
            assert(t.subrange(1, t.len() as int) =~= rest);
            assert(before + (seq![t[0]] + first_word(rest)) =~= out@ + first_word(rest));
        }
        i = i + 1;
    }
    assert(out@ + Seq::<char>::empty() =~= out@);
    out
}

/// The resident set in bytes, from the text of a process status file.
pub fn rss_from_status(status: &str) -> (r: Option<u64>)
    ensures
        match r {
            Some(v) => rss_from(status@, 0) == Some(v as int),
            None => rss_from(status@, 0) is None,
        },
{
    let s = text::chars_of(status);
    let name = text::chars_of("VmRSS:");
    proof {
        reveal_strlit("VmRSS:");
    }
    let n: usize = s.len();
    let mut i: usize = 0;
    while i < n
        invariant
            s@ == status@,
            n == s@.len(),
            i <= n,
            name@ == "VmRSS:"@,
            name@.len() == 6,
            rss_from(status@, 0) == rss_from(status@, i as int),
        decreases n - i,
    {
        let e: usize = find_line_end(&s, i);
        let line = text::part(&s, i, e);
        let at = text::find(&line, &name, 0);
        proof {
            text::found_stands(line@, name@, 0);
        }
        if let Some(0) = at {
            let rest = text::part(&line, 6, line.len());
            let word = take_word(&text::trim(&rest));
            return match text::parse_number(&word, MAX_KB) {
                Ok(kb) => Some(kb * 1024),
                Err(_) => None,
            };
        }
        assert(!text::matches_at(line@, name@, 0));
        if e >= n {
            assert(rss_from(status@, e + 1) is None);
            return None;
        }
        i = e + 1;
    }
    None
}

proof fn word_is_first(s: Seq<char>, d: int)
    requires
        0 <= d <= s.len(),
        forall|i: int| 0 <= i < d ==> !text::is_space(#[trigger] s[i]),
        d < s.len() ==> text::is_space(s[d]),
    ensures
        first_word(s) == s.subrange(0, d),
    decreases s.len(),
{
    if d == 0 {
        assert(s.subrange(0, 0) =~= Seq::<char>::empty());
    } else {
        let t = s.subrange(1, s.len() as int);
        assert forall|i: int| 0 <= i < d - 1 implies !text::is_space(#[trigger] t[i]) by {
            assert(t[i] == s[i + 1]);
        }
        if d - 1 < t.len() {
            assert(t[d - 1] == s[d]);
        }
        word_is_first(t, d - 1);
        assert(seq![s[0]] + t.subrange(0, d - 1) =~= s.subrange(0, d));
    }
}

/// A line states kilobytes: a number with space round it counts 1024 times.
pub proof fn stated_sizes_are_kilobytes(before: Seq<char>, n: nat, behind: Seq<char>)
    requires
        forall|i: int| 0 <= i < before.len() ==> text::is_space(#[trigger] before[i]),
        behind.len() > 0 ==> text::is_space(behind[0]),
        n <= 0x3f_ffff_ffff_ffff,
    ensures
        stated(before + text::decimal(n) + behind) == Some(1024 * n as int),
{
    let d = text::decimal(n);
    let s = before + d + behind;
    text::decimal_is_digits(n);
    let (a, b) = text::trimming_takes_space_off_the_ends(s);
    let p = before.len() as int;
    let e = p + d.len();
    assert forall|i: int| 0 <= i < d.len() implies s[p + i] == #[trigger] d[i] && !text::is_space(d[i]) by {
        assert(text::is_digit(d[i]));
    }
    assert(s[p] == d[0] && !text::is_space(s[p]));
    assert(s[e - 1] == d[d.len() - 1] && !text::is_space(s[e - 1]));
    assert(a <= p);
    assert(b >= e);
    if a < p {
        assert(s[a] == before[a]);
    }
    let t = s.subrange(a, b);
    assert forall|i: int| 0 <= i < d.len() implies !text::is_space(#[trigger] t[i]) by {
        assert(t[i] == s[p + i]);
        assert(s[p + i] == d[i]);
    }
    if d.len() < t.len() {
        assert(t[d.len() as int] == s[e]);
        assert(s[e] == behind[0]);
    }
    word_is_first(t, d.len() as int);
    assert(t.subrange(0, d.len() as int) =~= d);
    text::decimal_round_trip(n, MAX_KB as int);
}

proof fn line_ends_at_its_break(s: Seq<char>, i: int, e: int)
    requires
        0 <= i <= e < s.len(),
        s[e] == '\n',
        forall|k: int| i <= k < e ==> #[trigger] s[k] != '\n',
    ensures
        line_end(s, i) == e,
    decreases e - i,
{
    if i < e {
        line_ends_at_its_break(s, i + 1, e);
    }
}

/// A line that does not start with the name says nothing: the answer is that of the
/// lines behind it.
pub proof fn other_lines_are_skipped(s: Seq<char>, i: int, e: int)
    requires
        0 <= i <= e < s.len(),
        s[e] == '\n',
        forall|k: int| i <= k < e ==> #[trigger] s[k] != '\n',
        e - i < 6 || s[i] != 'V' || s[i + 1] != 'm' || s[i + 2] != 'R' || s[i + 3] != 'S' || s[i + 4] != 'S' || s[i
            + 5] != ':',
    ensures
        rss_from(s, i) == rss_from(s, e + 1),
{
    line_ends_at_its_break(s, i, e);
    let line = s.subrange(i, e);
    let name = "VmRSS:"@;
    reveal_strlit("VmRSS:");
    if text::matches_at(line, name, 0) {
        let head = line.subrange(0, 6);
        assert(head == name);
        assert(head[0] == s[i] && head[1] == s[i + 1] && head[2] == s[i + 2] && head[3] == s[i + 3] && head[4] == s[
        i + 4] && head[5] == s[i + 5]);
    }
}

/// A line that starts with the name decides, whatever stands behind it.
pub proof fn first_named_line_decides(s: Seq<char>, i: int, e: int)
    requires
        0 <= i,
        i + 6 <= e < s.len(),
        s[e] == '\n',
        forall|k: int| i <= k < e ==> #[trigger] s[k] != '\n',
        s[i] == 'V' && s[i + 1] == 'm' && s[i + 2] == 'R' && s[i + 3] == 'S' && s[i + 4] == 'S' && s[i + 5] == ':',
    ensures
        rss_from(s, i) == stated(s.subrange(i + 6, e)),
{
    line_ends_at_its_break(s, i, e);
    let line = s.subrange(i, e);
    let name = "VmRSS:"@;
    reveal_strlit("VmRSS:");
    assert(line.subrange(0, 6) =~= name);
    assert(line.subrange(6, line.len() as int) =~= s.subrange(i + 6, e));
}

} // verus!
