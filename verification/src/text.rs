//! Text: decimal numbers, searching and trimming.
use vstd::prelude::*;

verus! {

/// The character of one decimal digit.
pub open spec fn digit_char(d: int) -> char {
    (48 + d) as char
}

/// A number in decimal, without leading zeros.
pub open spec fn decimal(n: nat) -> Seq<char>
    decreases n,
{
    if n < 10 {
        seq![digit_char(n as int)]
    } else {
        decimal(n / 10).push(digit_char((n % 10) as int))
    }
}

/// Appends one digit.
pub fn push_digit(s: &mut String, d: u8)
    requires
        d < 10,
    ensures
        final(s)@ == old(s)@.push(digit_char(d as int)),
{
    let t = match d {
        0 => "0",
        1 => "1",
        2 => "2",
        3 => "3",
        4 => "4",
        5 => "5",
        6 => "6",
        7 => "7",
        8 => "8",
        _ => "9",
    };
    proof {
        reveal_strlit("0");
        reveal_strlit("1");
        reveal_strlit("2");
        reveal_strlit("3");
        reveal_strlit("4");
        reveal_strlit("5");
        reveal_strlit("6");
        reveal_strlit("7");
        reveal_strlit("8");
        reveal_strlit("9");
    }
    assert(t@ =~= seq![digit_char(d as int)]);
    s.append(t);
    assert(old(s)@ + t@ =~= old(s)@.push(digit_char(d as int)));
}

/// Appends a number in decimal.
pub fn push_decimal(s: &mut String, n: u64)
    ensures
        final(s)@ == old(s)@ + decimal(n as nat),
    decreases n,
{
    if n < 10 {
        push_digit(s, n as u8);
        assert(old(s)@.push(digit_char(n as int)) =~= old(s)@ + decimal(n as nat));
    } else {
        push_decimal(s, n / 10);
        push_digit(s, (n % 10) as u8);
        assert((old(s)@ + decimal((n / 10) as nat)).push(digit_char((n % 10) as int)) =~= old(s)@
            + decimal(n as nat));
    }
}

/// `String::push` appends one character.
pub assume_specification[ String::push ](s: &mut String, c: char)
    ensures
        final(s)@ == old(s)@.push(c),
;

/// The characters of a string.
pub fn chars_of(s: &str) -> (r: Vec<char>)
    ensures
        r@ == s@,
{
    let mut out: Vec<char> = Vec::new();
    for c in it: s.chars()
        invariant
            it.seq() == s@,
            out@ == s@.take(it.index() as int),
    {
        out.push(c);
        assert(s@.take(it.index() as int + 1) =~= s@.take(it.index() as int).push(c));
    }
    assert(s@.take(s@.len() as int) =~= s@);
    out
}

/// A string of characters.
pub fn string_of(v: &Vec<char>) -> (r: String)
    ensures
        r@ == v@,
{
    let mut s = String::new();
    let mut i: usize = 0;
    while i < v.len()
        invariant
            i <= v@.len(),
            s@ == v@.take(i as int),
        decreases v@.len() - i,
    {
        s.push(v[i]);
        assert(v@.take(i + 1) =~= v@.take(i as int).push(v@[i as int]));
        i = i + 1;
    }
    assert(v@.take(v@.len() as int) =~= v@);
    s
}

// ---- searching ------------------------------------------------------------------------

/// `pat` stands at position `i`.
pub open spec fn matches_at(s: Seq<char>, pat: Seq<char>, i: int) -> bool {
    0 <= i && i + pat.len() <= s.len() && s.subrange(i, i + pat.len()) == pat
}

/// The first position from `i` on where `pat` stands.
pub open spec fn find_from(s: Seq<char>, pat: Seq<char>, i: int) -> Option<int>
    decreases s.len() + 1 - i,
{
    if i < 0 || i + pat.len() > s.len() {
        None
    } else if matches_at(s, pat, i) {
        Some(i)
    } else {
        find_from(s, pat, i + 1)
    }
}

/// How often `pat` stands in `s` from `i` on, without overlaps.
pub open spec fn count_from(s: Seq<char>, pat: Seq<char>, i: int) -> int
    decreases s.len() - i,
{
    if i < 0 || pat.len() == 0 || i + pat.len() > s.len() {
        0
    } else if matches_at(s, pat, i) {
        1 + count_from(s, pat, i + pat.len())
    } else {
        count_from(s, pat, i + 1)
    }
}

/// Where a pattern is found, it stands.
pub proof fn found_stands(s: Seq<char>, pat: Seq<char>, i: int)
    requires
        0 <= i,
    ensures
        match find_from(s, pat, i) {
            Some(k) => i <= k && matches_at(s, pat, k) && forall|j: int|
                i <= j < k ==> !#[trigger] matches_at(s, pat, j),
            None => forall|j: int| i <= j ==> !#[trigger] matches_at(s, pat, j),
        },
    decreases s.len() + 1 - i,
{
    if i + pat.len() <= s.len() && !matches_at(s, pat, i) {
        found_stands(s, pat, i + 1);
        assert forall|j: int| i <= j implies (match find_from(s, pat, i) {
            Some(k) => j < k ==> !#[trigger] matches_at(s, pat, j),
            None => !matches_at(s, pat, j),
        }) by {
            if j > i {
                match find_from(s, pat, i + 1) {
                    Some(k) => {},
                    None => {},
                }
            }
        }
    }
}

fn stands_at(s: &Vec<char>, pat: &Vec<char>, i: usize) -> (r: bool)
    requires
        i + pat@.len() <= s@.len(),
    ensures
        r == matches_at(s@, pat@, i as int),
{
    let n: usize = s.len();
    let mut k: usize = 0;
    while k < pat.len()
        invariant
            k <= pat@.len(),
            n == s@.len(),
            i + pat@.len() <= n,
            forall|j: int| 0 <= j < k ==> #[trigger] pat@[j] == s@[i + j],
        decreases pat@.len() - k,
    {
        if s[i + k] != pat[k] {
            assert(s@.subrange(i as int, i + pat@.len())[k as int] != pat@[k as int]);
            return false;
        }
        k = k + 1;
    }
    assert(s@.subrange(i as int, i + pat@.len()) =~= pat@);
    true
}

/// Finds `pat` from position `from` on.
pub fn find(s: &Vec<char>, pat: &Vec<char>, from: usize) -> (r: Option<usize>)
    ensures
        match r {
            Some(k) => find_from(s@, pat@, from as int) == Some(k as int) && from <= k && k + pat@.len()
                <= s@.len(),
            None => find_from(s@, pat@, from as int) is None,
        },
{
    let n: usize = s.len();
    let m: usize = pat.len();
    if from > n {
        return None;
    }
    let mut i: usize = from;
    while i <= n && n - i >= m
        invariant
            from <= i,
            n == s@.len(),
            m == pat@.len(),
            i <= n + 1,
            find_from(s@, pat@, from as int) == find_from(s@, pat@, i as int),
        decreases n + 1 - i,
    {
        if stands_at(s, pat, i) {
            return Some(i);
        }
        if i == n {
            assert(find_from(s@, pat@, i as int + 1) is None);
            return None;
        }
        i = i + 1;
    }
    None
}

/// Counts `pat`, without overlaps.
pub fn count(s: &Vec<char>, pat: &Vec<char>) -> (r: usize)
    requires
        pat@.len() > 0,
    ensures
        r == count_from(s@, pat@, 0),
        r <= s@.len(),
{
    let n: usize = s.len();
    let m: usize = pat.len();
    let mut k: usize = 0;
    let mut i: usize = 0;
    while i <= n && n - i >= m
        invariant
            n == s@.len(),
            m == pat@.len(),
            0 < m,
            i <= n,
            k <= i,
            count_from(s@, pat@, 0) == k + count_from(s@, pat@, i as int),
        decreases n - i,
    {
        if stands_at(s, pat, i) {
            k = k + 1;
            i = i + m;
        } else {
            i = i + 1;
        }
    }
    k
}

// ---- trimming -------------------------------------------------------------------------

/// White space, as Unicode defines it.
pub open spec fn is_space(c: char) -> bool {
    let v = c as u32;
    ||| 0x09 <= v <= 0x0d
    ||| v == 0x20
    ||| v == 0x85
    ||| v == 0xa0
    ||| v == 0x1680
    ||| 0x2000 <= v <= 0x200a
    ||| v == 0x2028
    ||| v == 0x2029
    ||| v == 0x202f
    ||| v == 0x205f
    ||| v == 0x3000
}

/// Whether a character is white space.
pub fn space(c: char) -> (r: bool)
    ensures
        r == is_space(c),
{
    let v: u32 = c as u32;
    (0x09 <= v && v <= 0x0d) || v == 0x20 || v == 0x85 || v == 0xa0 || v == 0x1680 || (0x2000 <= v && v
        <= 0x200a) || v == 0x2028 || v == 0x2029 || v == 0x202f || v == 0x205f || v == 0x3000
}

/// Without leading white space.
pub open spec fn trim_start(s: Seq<char>) -> Seq<char>
    decreases s.len(),
{
    if s.len() > 0 && is_space(s[0]) {
        trim_start(s.subrange(1, s.len() as int))
    } else {
        s
    }
}

/// Without trailing white space.
pub open spec fn trim_end(s: Seq<char>) -> Seq<char>
    decreases s.len(),
{
    if s.len() > 0 && is_space(s[s.len() - 1]) {
        trim_end(s.subrange(0, s.len() - 1))
    } else {
        s
    }
}

/// Without white space at either end.
pub open spec fn trimmed(s: Seq<char>) -> Seq<char> {
    trim_end(trim_start(s))
}

/// Without trailing `c`.
pub open spec fn trim_end_of(s: Seq<char>, c: char) -> Seq<char>
    decreases s.len(),
{
    if s.len() > 0 && s[s.len() - 1] == c {
        trim_end_of(s.subrange(0, s.len() - 1), c)
    } else {
        s
    }
}

/// A part of a list of characters.
pub fn part(s: &Vec<char>, a: usize, b: usize) -> (r: Vec<char>)
    requires
        a <= b <= s@.len(),
    ensures
        r@ == s@.subrange(a as int, b as int),
{
    let mut out: Vec<char> = Vec::new();
    let mut i: usize = a;
    while i < b
        invariant
            a <= i <= b,
            b <= s@.len(),
            out@ == s@.subrange(a as int, i as int),
        decreases b - i,
    {
        out.push(s[i]);
        assert(s@.subrange(a as int, i + 1) =~= s@.subrange(a as int, i as int).push(s@[i as int]));
        i = i + 1;
    }
    out
}

/// Trims white space at both ends.
pub fn trim(s: &Vec<char>) -> (r: Vec<char>)
    ensures
        r@ == trimmed(s@),
{
    let n: usize = s.len();
    let mut a: usize = 0;
    assert(s@.subrange(0, n as int) =~= s@);
    while a < n && space(s[a])
        invariant
            a <= n,
            n == s@.len(),
            trim_start(s@) == trim_start(s@.subrange(a as int, n as int)),
        decreases n - a,
    {
        let ghost t = s@.subrange(a as int, n as int);
        assert(t.subrange(1, t.len() as int) =~= s@.subrange(a + 1, n as int));
        a = a + 1;
    }
    let mut b: usize = n;
    while a < b && space(s[b - 1])
        invariant
            a <= b <= n,
            n == s@.len(),
            trimmed(s@) == trim_end(s@.subrange(a as int, b as int)),
        decreases b,
    {
        let ghost t = s@.subrange(a as int, b as int);
        assert(t.subrange(0, t.len() - 1) =~= s@.subrange(a as int, b - 1));
        b = b - 1;
    }
    part(s, a, b)
}

/// Trims trailing `c`.
pub fn trim_end_matches(s: &Vec<char>, c: char) -> (r: Vec<char>)
    ensures
        r@ == trim_end_of(s@, c),
{
    let n: usize = s.len();
    let mut b: usize = n;
    assert(s@.subrange(0, n as int) =~= s@);
    while 0 < b && s[b - 1] == c
        invariant
            b <= n,
            n == s@.len(),
            trim_end_of(s@, c) == trim_end_of(s@.subrange(0, b as int), c),
        decreases b,
    {
        let ghost t = s@.subrange(0, b as int);
        assert(t.subrange(0, t.len() - 1) =~= s@.subrange(0, b - 1));
        b = b - 1;
    }
    part(s, 0, b)
}

/// Appends characters.
pub fn extend(out: &mut Vec<char>, more: &Vec<char>)
    ensures
        final(out)@ == old(out)@ + more@,
{
    let ghost o0 = out@;
    let mut i: usize = 0;
    while i < more.len()
        invariant
            i <= more@.len(),
            out@ == o0 + more@.take(i as int),
        decreases more@.len() - i,
    {
        out.push(more[i]);
        assert(more@.take(i + 1) =~= more@.take(i as int).push(more@[i as int]));
        i = i + 1;
    }
    assert(more@.take(more@.len() as int) =~= more@);
}

/// Appends a string.
pub fn extend_str(out: &mut Vec<char>, more: &str)
    ensures
        final(out)@ == old(out)@ + more@,
{
    let v = chars_of(more);
    extend(out, &v);
}

/// Whether two lists of characters are equal.
pub fn same(a: &Vec<char>, b: &Vec<char>) -> (r: bool)
    ensures
        r == (a@ == b@),
{
    if a.len() != b.len() {
        return false;
    }
    let mut i: usize = 0;
    while i < a.len()
        invariant
            i <= a@.len(),
            a@.len() == b@.len(),
            forall|k: int| 0 <= k < i ==> #[trigger] a@[k] == b@[k],
        decreases a@.len() - i,
    {
        if a[i] != b[i] {
            return false;
        }
        i = i + 1;
    }
    assert(a@ =~= b@);
    true
}

// ---- numbers --------------------------------------------------------------------------

/// Why a text is no number.
#[derive(Clone, Copy, Debug, PartialEq, Eq, Structural)]
pub enum NumberFault {
    /// Nothing to read.
    Empty,
    /// Something other than a digit.
    NotDigit,
    /// More than the limit.
    TooLarge,
}

/// The message of a fault.
pub open spec fn fault_text(f: NumberFault) -> Seq<char> {
    match f {
        NumberFault::Empty => "cannot parse integer from empty string"@,
        NumberFault::NotDigit => "invalid digit found in string"@,
        NumberFault::TooLarge => "number too large to fit in target type"@,
    }
}

impl NumberFault {
    /// The fault as text.
    pub fn message(self) -> (r: &'static str)
        ensures
            r@ == fault_text(self),
    {
        match self {
            NumberFault::Empty => "cannot parse integer from empty string",
            NumberFault::NotDigit => "invalid digit found in string",
            NumberFault::TooLarge => "number too large to fit in target type",
        }
    }
}

/// A decimal digit.
pub open spec fn is_digit(c: char) -> bool {
    48 <= c as u32 <= 57
}

/// The value of a digit.
pub open spec fn digit_value(c: char) -> int {
    c as u32 - 48
}

/// The number that the digits from `i` on make behind `acc`; the first character
/// that is no digit, or that makes the number too large, decides otherwise.
pub open spec fn number_from(s: Seq<char>, i: int, acc: int, limit: int) -> Result<int, NumberFault>
    decreases s.len() - i,
{
    if i >= s.len() {
        Ok(acc)
    } else if !is_digit(s[i]) {
        Err(NumberFault::NotDigit)
    } else if acc * 10 + digit_value(s[i]) > limit {
        Err(NumberFault::TooLarge)
    } else {
        number_from(s, i + 1, acc * 10 + digit_value(s[i]), limit)
    }
}

/// The number that a text states, up to `limit`; a leading plus sign is allowed.
pub open spec fn number_of(s: Seq<char>, limit: int) -> Result<int, NumberFault> {
    if s.len() == 0 {
        Err(NumberFault::Empty)
    } else if s[0] == '+' {
        if s.len() == 1 {
            Err(NumberFault::NotDigit)
        } else {
            number_from(s, 1, 0, limit)
        }
    } else {
        number_from(s, 0, 0, limit)
    }
}

/// Reads a number.
pub fn parse_number(s: &Vec<char>, limit: u64) -> (r: Result<u64, NumberFault>)
    ensures
        match r {
            Ok(v) => number_of(s@, limit as int) == Ok::<int, NumberFault>(v as int) && v <= limit,
            Err(e) => number_of(s@, limit as int) == Err::<int, NumberFault>(e),
        },
{
    let n: usize = s.len();
    if n == 0 {
        return Err(NumberFault::Empty);
    }
    let mut i: usize = 0;
    if s[0] == '+' {
        if n == 1 {
            return Err(NumberFault::NotDigit);
        }
        i = 1;
    }
    let mut acc: u64 = 0;
    while i < n
        invariant
            i <= n,
            n == s@.len(),
            acc <= limit,
            number_of(s@, limit as int) == number_from(s@, i as int, acc as int, limit as int),
        decreases n - i,
    {
        let c: char = s[i];
        let v: u32 = c as u32;
        if v < 48 || v > 57 {
            return Err(NumberFault::NotDigit);
        }
        let next: u128 = acc as u128 * 10 + (v - 48) as u128;
        if next > limit as u128 {
            return Err(NumberFault::TooLarge);
        }
        acc = next as u64;
        i = i + 1;
    }
    Ok(acc)
}

/// Decimal text is made of digits and is never empty.
pub proof fn decimal_is_digits(n: nat)
    ensures
        decimal(n).len() > 0,
        forall|i: int| 0 <= i < decimal(n).len() ==> is_digit(#[trigger] decimal(n)[i]),
    decreases n,
{
    if n >= 10 {
        decimal_is_digits(n / 10);
    }
}

proof fn number_extend(s: Seq<char>, i: int, acc: int, k: int, limit: int, v: int)
    requires
        0 <= i <= k < s.len(),
        number_from(s.subrange(0, k), i, acc, limit) == Ok::<int, NumberFault>(v),
        is_digit(s[k]),
        v * 10 + digit_value(s[k]) <= limit,
    ensures
        number_from(s.subrange(0, k + 1), i, acc, limit) == Ok::<int, NumberFault>(
            v * 10 + digit_value(s[k]),
        ),
    decreases k - i,
{
    let a = s.subrange(0, k);
    let b = s.subrange(0, k + 1);
    if i < k {
        assert(a[i] == s[i] && b[i] == s[i]);
        number_extend(s, i + 1, acc * 10 + digit_value(s[i]), k, limit, v);
    } else {
        assert(b[k] == s[k]);
        assert(number_from(b, k + 1, v * 10 + digit_value(s[k]), limit) == Ok::<int, NumberFault>(
            v * 10 + digit_value(s[k]),
        ));
    }
}

/// Reading decimal text gives the number back.
pub proof fn decimal_round_trip(n: nat, limit: int)
    requires
        n <= limit,
    ensures
        number_of(decimal(n), limit) == Ok::<int, NumberFault>(n as int),
{
    decimal_is_digits(n);
    decimal_reads(n, limit);
    assert(decimal(n)[0] != '+');
}

proof fn decimal_reads(n: nat, limit: int)
    requires
        n <= limit,
    ensures
        number_from(decimal(n), 0, 0, limit) == Ok::<int, NumberFault>(n as int),
    decreases n,
{
    let s = decimal(n);
    if n < 10 {
        assert(s[0] == digit_char(n as int));
        assert(number_from(s, 1, n as int, limit) == Ok::<int, NumberFault>(n as int));
    } else {
        let p = decimal(n / 10);
        decimal_reads(n / 10, limit);
        decimal_is_digits(n / 10);
        let k = p.len() as int;
        assert(s.subrange(0, k) =~= p);
        assert(s.subrange(0, k + 1) =~= s);
        assert(s[k] == digit_char((n % 10) as int));
        number_extend(s, 0, 0, k, limit, (n / 10) as int);
    }
}

proof fn reading_goes_on(s: Seq<char>, t: Seq<char>, i: int, acc: int, limit: int)
    requires
        0 <= i <= s.len(),
        t.len() == s.len() + 1,
        forall|k: int| 0 <= k < s.len() ==> #[trigger] t[k] == s[k],
        48 <= t[s.len() as int] as u32 <= 57,
    ensures
        match number_from(s, i, acc, limit) {
            Ok(v) => {
                let next = 10 * v + (t[s.len() as int] as u32 - 48);
                number_from(t, i, acc, limit) == (if next > limit {
                    Err::<int, NumberFault>(NumberFault::TooLarge)
                } else {
                    Ok::<int, NumberFault>(next)
                })
            },
            Err(f) => number_from(t, i, acc, limit) == Err::<int, NumberFault>(f),
        },
    decreases s.len() - i,
{
    if i < s.len() {
        assert(t[i] == s[i]);
        if is_digit(s[i]) && acc * 10 + digit_value(s[i]) <= limit {
            reading_goes_on(s, t, i + 1, acc * 10 + digit_value(s[i]), limit);
        }
    } else {
        reveal_with_fuel(number_from, 2);
    }
}

/// A further digit makes ten times the number and the digit, or too large a number;
/// and a fault stays the fault that it was.
pub proof fn digits_count_by_place(s: Seq<char>, d: char, limit: int)
    requires
        s.len() > 0,
        48 <= d as u32 <= 57,
        s.len() > 1 || s[0] != '+',
    ensures
        match number_of(s, limit) {
            Ok(v) => number_of(s.push(d), limit) == (if 10 * v + (d as u32 - 48) > limit {
                Err::<int, NumberFault>(NumberFault::TooLarge)
            } else {
                Ok::<int, NumberFault>(10 * v + (d as u32 - 48))
            }),
            Err(f) => number_of(s.push(d), limit) == Err::<int, NumberFault>(f),
        },
{
    let t = s.push(d);
    if s[0] == '+' {
        reading_goes_on(s, t, 1, 0, limit);
    } else {
        reading_goes_on(s, t, 0, 0, limit);
    }
}

/// One digit is its own number, a sign alone and any other character is none, and
/// nothing is no number.
pub proof fn single_characters_are_read(c: char, limit: int)
    requires
        limit >= 9,
    ensures
        48 <= c as u32 <= 57 ==> number_of(seq![c], limit) == Ok::<int, NumberFault>(c as u32 - 48),
        !(48 <= c as u32 <= 57) ==> number_of(seq![c], limit) == Err::<int, NumberFault>(NumberFault::NotDigit),
        number_of(Seq::empty(), limit) == Err::<int, NumberFault>(NumberFault::Empty),
{
    reveal_with_fuel(number_from, 3);
}

proof fn front_is_trimmed(s: Seq<char>) -> (k: int)
    ensures
        0 <= k <= s.len(),
        trim_start(s) == s.subrange(k, s.len() as int),
        forall|i: int| 0 <= i < k ==> is_space(#[trigger] s[i]),
        k < s.len() ==> !is_space(s[k]),
    decreases s.len(),
{
    if s.len() > 0 && is_space(s[0]) {
        let r = s.subrange(1, s.len() as int);
        let k = front_is_trimmed(r);
        assert(r.subrange(k, r.len() as int) =~= s.subrange(k + 1, s.len() as int));
        assert forall|i: int| 0 <= i < k + 1 implies is_space(#[trigger] s[i]) by {
            if i > 0 {
                assert(r[i - 1] == s[i]);
            }
        }
        if k < r.len() {
            assert(r[k] == s[k + 1]);
        }
        k + 1
    } else {
        assert(s.subrange(0, s.len() as int) =~= s);
        0
    }
}

proof fn end_is_trimmed(s: Seq<char>) -> (k: int)
    ensures
        0 <= k <= s.len(),
        trim_end(s) == s.subrange(0, k),
        forall|i: int| k <= i < s.len() ==> is_space(#[trigger] s[i]),
        k > 0 ==> !is_space(s[k - 1]),
    decreases s.len(),
{
    if s.len() > 0 && is_space(s[s.len() - 1]) {
        let r = s.subrange(0, s.len() - 1);
        let k = end_is_trimmed(r);
        assert(r.subrange(0, k) =~= s.subrange(0, k));
        assert forall|i: int| k <= i < s.len() implies is_space(#[trigger] s[i]) by {
            if i < r.len() {
                assert(r[i] == s[i]);
            }
        }
        if k > 0 {
            assert(r[k - 1] == s[k - 1]);
        }
        k
    } else {
        assert(s.subrange(0, s.len() as int) =~= s);
        s.len() as int
    }
}

/// Trimming takes the space off both ends and nothing else: the rest stands in the
/// text from the first place to behind the last that is returned.
pub proof fn trimming_takes_space_off_the_ends(s: Seq<char>) -> (r: (int, int))
    ensures
        0 <= r.0 <= r.1 <= s.len(),
        trimmed(s) == s.subrange(r.0, r.1),
        forall|i: int| 0 <= i < r.0 || r.1 <= i < s.len() ==> is_space(#[trigger] s[i]),
        r.0 < r.1 ==> !is_space(s[r.0]) && !is_space(s[r.1 - 1]),
{
    let a = front_is_trimmed(s);
    let t = s.subrange(a, s.len() as int);
    let k = end_is_trimmed(t);
    assert(t.subrange(0, k) =~= s.subrange(a, a + k));
    assert forall|i: int| 0 <= i < a || a + k <= i < s.len() implies is_space(#[trigger] s[i]) by {
        if i >= a + k {
            assert(t[i - a] == s[i]);
        }
    }
    if k > 0 {
        assert(t[k - 1] == s[a + k - 1]);
        assert(t[0] == s[a]);
    }
    (a, a + k)
}

/// Of the first 128 characters, tab to return and the blank are space.
pub proof fn plain_space_is_known(c: char)
    requires
        (c as u32) < 128,
    ensures
        is_space(c) == (c as u32 == 9 || c as u32 == 10 || c as u32 == 11 || c as u32 == 12 || c as u32 == 13
            || c as u32 == 32),
{
}

/// What trimming takes off an end is all the character, and what is left does not
/// end in it.
pub proof fn trimming_takes_the_character_off_the_end(s: Seq<char>, c: char)
    ensures
        ({
            let r = trim_end_of(s, c);
            &&& r.len() <= s.len()
            &&& r == s.subrange(0, r.len() as int)
            &&& forall|i: int| r.len() <= i < s.len() ==> #[trigger] s[i] == c
            &&& r.len() > 0 ==> r[r.len() - 1] != c
        }),
    decreases s.len(),
{
    if s.len() > 0 && s[s.len() - 1] == c {
        let t = s.subrange(0, s.len() - 1);
        trimming_takes_the_character_off_the_end(t, c);
        let r = trim_end_of(t, c);
        assert(r =~= s.subrange(0, r.len() as int));
        assert forall|i: int| r.len() <= i < s.len() implies #[trigger] s[i] == c by {
            if i < t.len() {
                assert(t[i] == s[i]);
            }
        }
    } else {
        assert(s =~= s.subrange(0, s.len() as int));
    }
}

/// A pattern is counted exactly where it stands somewhere.
pub proof fn counted_patterns_stand(s: Seq<char>, pat: Seq<char>, i: int) -> (at: int)
    requires
        0 <= i,
        pat.len() > 0,
    ensures
        count_from(s, pat, i) > 0 ==> i <= at && at + pat.len() <= s.len() && s.subrange(at, at + pat.len()) == pat,
        count_from(s, pat, i) == 0 ==> forall|k: int|
            #![trigger s.subrange(k, k + pat.len())]
            i <= k && k + pat.len() <= s.len() ==> s.subrange(k, k + pat.len()) != pat,
        count_from(s, pat, i) >= 0,
    decreases s.len() - i,
{
    if i + pat.len() > s.len() {
        i
    } else if matches_at(s, pat, i) {
        counted_patterns_stand(s, pat, i + pat.len());
        i
    } else {
        counted_patterns_stand(s, pat, i + 1)
    }
}

/// Occurrences that do not overlap count one by one: a text of `n` copies of a
/// pattern holds it `n` times from its start on.
pub proof fn copies_are_counted(s: Seq<char>, pat: Seq<char>, i: int, n: int)
    requires
        0 <= i,
        0 <= n,
        pat.len() > 0,
        s.len() == i + n * pat.len(),
        forall|k: int|
            #![trigger i + k * pat.len()]
            0 <= k < n ==> s.subrange(i + k * pat.len(), i + k * pat.len() + pat.len()) == pat,
    ensures
        count_from(s, pat, i) == n,
    decreases n,
{
    if n > 0 {
        let m = pat.len() as int;
        assert(i + 0 * pat.len() == i);
        assert((n - 1) * m == n * m - m && n * m >= m) by (nonlinear_arith)
            requires
                n > 0,
                m > 0,
        ;
        assert forall|k: int|
            #![trigger i + m + k * pat.len()]
            0 <= k < n - 1 implies s.subrange(i + m + k * pat.len(), i + m + k * pat.len() + pat.len()) == pat by {
            assert((k + 1) * m == k * m + m) by (nonlinear_arith);
            assert(i + (k + 1) * pat.len() == i + m + k * pat.len());
        }
        copies_are_counted(s, pat, i + m, n - 1);
    }
}

} // verus!
