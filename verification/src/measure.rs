//! The integer parts of the measurements: grouping digits for the tables,
//! picking a nearest-rank percentile, and reading a thread's CPU ticks from
//! its `stat` line.

use vstd::prelude::*;
use vstd::string::StringExecFns;
use vstd::std_specs::iter::IteratorSpec;

verus! {

// ---------------------------------------------------------------- digit grouping

pub open spec fn digit_char(d: int) -> char {
    (48 + d) as char
}

/// The decimal digits of `n`.
pub open spec fn decimal(n: nat) -> Seq<char>
    decreases n,
{
    if n < 10 {
        seq![digit_char(n as int)]
    } else {
        decimal(n / 10) + seq![digit_char((n % 10) as int)]
    }
}

/// The decimal digits of `n`, with a comma between each group of three
/// from the right.
pub open spec fn grouped(n: nat) -> Seq<char>
    decreases n,
{
    if n < 1000 {
        decimal(n)
    } else {
        grouped(n / 1000) + seq![','] + seq![
            digit_char((n % 1000 / 100) as int),
            digit_char((n % 100 / 10) as int),
            digit_char((n % 10) as int),
        ]
    }
}

fn digit_str(d: u64) -> (r: &'static str)
    requires
        d < 10,
    ensures
        r@ == seq![digit_char(d as int)],
{
    proof {
        reveal_strlit("0");
        reveal_strlit("1");
        reveal_strlit("2");
        reveal_strlit("3");
        reveal_strlit("4");
        reveal_strlit("5");
        reveal_strlit("6");
        reveal_strlit("7");
        reveal_strlit("8");
        reveal_strlit("9");
    }
    let r = match d {
        0 => "0",
        1 => "1",
        2 => "2",
        3 => "3",
        4 => "4",
        5 => "5",
        6 => "6",
        7 => "7",
        8 => "8",
        _ => "9",
    };
    assert(r@ =~= seq![digit_char(d as int)]);
    r
}

fn small_decimal(n: u64) -> (r: String)
    requires
        n < 1000,
    ensures
        r@ == decimal(n as nat),
{
    proof {
        reveal_with_fuel(decimal, 3);
    }
    if n < 10 {
        digit_str(n).to_owned()
    } else if n < 100 {
        let mut r = digit_str(n / 10).to_owned();
        r.append(digit_str(n % 10));
        assert(r@ =~= decimal(n as nat));
        r
    } else {
        let mut r = digit_str(n / 100).to_owned();
        r.append(digit_str(n / 10 % 10));
        r.append(digit_str(n % 10));
        assert(decimal((n / 10) as nat) =~= seq![digit_char((n / 100) as int), digit_char((n / 10 % 10) as int)]);
        assert(r@ =~= decimal(n as nat));
        r
    }
}

/// The digits of `value` grouped by three with commas: 1234567 gives
/// "1,234,567".
pub fn group_thousands(value: u64) -> (r: String)
    ensures
        r@ == grouped(value as nat),
    decreases value,
{
    if value < 1000 {
        small_decimal(value)
    } else {
        let mut r = group_thousands(value / 1000);
        r.append(",");
        r.append(digit_str(value % 1000 / 100));
        r.append(digit_str(value % 100 / 10));
        r.append(digit_str(value % 10));
        proof {
            reveal_strlit(",");
        }
        assert(r@ =~= grouped(value as nat));
        r
    }
}

// ---------------------------------------------------------------- percentiles

/// The element of rank `rank` (counted from 1) of a non-empty list, the rank
/// held between 1 and the length: `None` for an empty list.
pub open spec fn at_rank(sorted: Seq<u32>, rank: int) -> Option<u32> {
    if sorted.len() == 0 {
        None
    } else if rank < 1 {
        Some(sorted[0])
    } else if rank > sorted.len() {
        Some(sorted[sorted.len() - 1])
    } else {
        Some(sorted[rank - 1])
    }
}

/// The nearest-rank pick: the element of rank `rank`, clamped to the list.
pub fn nearest_rank(sorted: &[u32], rank: usize) -> (r: Option<u32>)
    ensures
        r == at_rank(sorted@, rank as int),
{
    if sorted.len() == 0 {
        return None;
    }
    let clamped = if rank < 1 {
        1
    } else if rank > sorted.len() {
        sorted.len()
    } else {
        rank
    };
    Some(sorted[clamped - 1])
}

// ---------------------------------------------------------------- the stat line

/// What `char::is_whitespace` accepts: the characters with Unicode's
/// White_Space property.
pub open spec fn is_space(c: char) -> bool {
    let n = c as u32;
    n == 0x20 || (0x09 <= n && n <= 0x0d) || n == 0x85 || n == 0xa0 || n == 0x1680 || (0x2000 <= n
        && n <= 0x200a) || n == 0x2028 || n == 0x2029 || n == 0x202f || n == 0x205f || n == 0x3000
}

/// `char::is_whitespace`.
pub fn char_is_space(c: char) -> (r: bool)
    ensures
        r == is_space(c),
{
    let n = c as u32;
    n == 0x20 || (0x09 <= n && n <= 0x0d) || n == 0x85 || n == 0xa0 || n == 0x1680 || (0x2000 <= n
        && n <= 0x200a) || n == 0x2028 || n == 0x2029 || n == 0x202f || n == 0x205f || n == 0x3000
}

/// Where the field that starts at `i` ends.
pub open spec fn token_end(s: Seq<char>, i: int) -> int
    decreases s.len() - i,
{
    if i < 0 || i >= s.len() || is_space(s[i]) {
        i
    } else {
        token_end(s, i + 1)
    }
}

pub proof fn lemma_token_end(s: Seq<char>, i: int)
    requires
        0 <= i <= s.len(),
    ensures
        i <= token_end(s, i) <= s.len(),
        i < s.len() && !is_space(s[i]) ==> i < token_end(s, i),
        forall|k: int| i <= k < token_end(s, i) ==> !is_space(s[k]),
        token_end(s, i) < s.len() ==> is_space(s[token_end(s, i)]),
    decreases s.len() - i,
{
    if i < s.len() && !is_space(s[i]) {
        lemma_token_end(s, i + 1);
    }
}

/// The whitespace-separated fields of `s` from index `i` on, as
/// `str::split_whitespace` gives them.
pub open spec fn fields_from(s: Seq<char>, i: int) -> Seq<Seq<char>>
    decreases s.len() - i,
{
    if i < 0 || i >= s.len() {
        Seq::empty()
    } else if is_space(s[i]) {
        fields_from(s, i + 1)
    } else {
        proof {
            lemma_token_end(s, i);
        }
        seq![s.subrange(i, token_end(s, i))] + fields_from(s, token_end(s, i))
    }
}

/// The index of the last `)` before index `n`.
pub open spec fn last_paren_before(s: Seq<char>, n: int) -> Option<int>
    decreases n,
{
    if n <= 0 {
        None
    } else if s[n - 1] == ')' {
        Some(n - 1)
    } else {
        last_paren_before(s, n - 1)
    }
}

pub open spec fn is_digit(c: char) -> bool {
    '0' <= c && c <= '9'
}

/// The number that decimal digits spell.
pub open spec fn digits_value(d: Seq<char>) -> nat
    decreases d.len(),
{
    if d.len() == 0 {
        0
    } else {
        digits_value(d.drop_last()) * 10 + (d.last() as u32 - 48) as nat
    }
}

/// What `u64::from_str` gives: an optional `+`, then one or more digits
/// whose value fits.
pub open spec fn parse_u64(t: Seq<char>) -> Option<u64> {
    if digits_part(t).len() == 0 || !all_digits(digits_part(t)) || digits_value(digits_part(t))
        > u64::MAX {
        None
    } else {
        Some(digits_value(digits_part(t)) as u64)
    }
}

/// A field without its leading `+`, if it has one and more.
pub open spec fn digits_part(t: Seq<char>) -> Seq<char> {
    if t.len() > 1 && t[0] == '+' {
        t.drop_first()
    } else {
        t
    }
}

pub open spec fn all_digits(d: Seq<char>) -> bool {
    forall|k: int| 0 <= k < d.len() ==> is_digit(#[trigger] d[k])
}

/// The user and system ticks of a thread's `stat` line: fields 14 and 15,
/// that is the 12th and 13th whitespace-separated fields after the `)` that
/// ends the command name.
pub open spec fn cpu_ticks(s: Seq<char>) -> Option<(u64, u64)> {
    match last_paren_before(s, s.len() as int) {
        None => None,
        Some(p) => {
            let f = fields_from(s, p + 1);
            if f.len() <= 12 {
                None
            } else {
                match (parse_u64(f[11]), parse_u64(f[12])) {
                    (Some(user), Some(system)) => Some((user, system)),
                    _ => None,
                }
            }
        },
    }
}

proof fn lemma_digits_value_take(d: Seq<char>, i: int)
    requires
        0 <= i < d.len(),
    ensures
        digits_value(d.take(i + 1)) == digits_value(d.take(i)) * 10 + (d[i] as u32 - 48) as nat,
{
    assert(d.take(i + 1).drop_last() =~= d.take(i));
}

proof fn lemma_digits_value_grows(d: Seq<char>, i: int)
    requires
        0 <= i <= d.len(),
    ensures
        digits_value(d.take(i)) <= digits_value(d),
    decreases d.len() - i,
{
    if i < d.len() {
        lemma_digits_value_grows(d, i + 1);
        lemma_digits_value_take(d, i);
    } else {
        assert(d.take(i) =~= d);
    }
}

/// Parses a field as `u64::from_str` does.
pub fn parse_ticks(t: &[char]) -> (r: Option<u64>)
    ensures
        r == parse_u64(t@),
{
    let start: usize = if t.len() > 1 && t[0] == '+' {
        1
    } else {
        0
    };
    let ghost d = t@.skip(start as int);
    assert(d =~= digits_part(t@));
    if t.len() == start {
        return None;
    }
    let mut k = start;
    while k < t.len()
        invariant
            start <= k <= t@.len(),
            d == t@.skip(start as int),
            d == digits_part(t@),
            forall|j: int| 0 <= j < k - start ==> is_digit(d[j]),
        decreases t@.len() - k,
    {
        assert(d[k - start] == t@[k as int]);
        if t[k] < '0' || t[k] > '9' {
            assert(!is_digit(d[k - start]));
            return None;
        }
        k = k + 1;
    }
    let mut value: u64 = 0;
    let mut i = start;
    while i < t.len()
        invariant
            start <= i <= t@.len(),
            d == t@.skip(start as int),
            d == digits_part(t@),
            forall|j: int| 0 <= j < d.len() ==> is_digit(d[j]),
            value == digits_value(d.take(i - start)),
        decreases t@.len() - i,
    {
        assert(d[i - start] == t@[i as int]);
        assert(is_digit(d[i - start]));
        let digit = (t[i] as u32 - 48) as u64;
        proof {
            lemma_digits_value_take(d, i - start);
        }
        if value > (u64::MAX - digit) / 10 {
            proof {
                lemma_digits_value_grows(d, i - start + 1);
                assert(value * 10 + digit > u64::MAX) by (nonlinear_arith)
                    requires
                        value > (u64::MAX - digit) / 10,
                        digit <= 9,
                ;
            }
            return None;
        }
        assert(value * 10 + digit <= u64::MAX) by (nonlinear_arith)
            requires
                value <= (u64::MAX - digit) / 10,
                digit <= 9,
        ;
        value = value * 10 + digit;
        i = i + 1;
    }
    assert(d.take(d.len() as int) =~= d);
    Some(value)
}

/// The characters of a string, in order.
fn chars_of(s: &str) -> (r: Vec<char>)
    ensures
        r@ == s@,
{
    broadcast use {vstd::string::axiom_spec_iter, vstd::string::next_postcondition};

    let mut it = s.chars();
    let mut r: Vec<char> = Vec::new();
    loop
        invariant_except_break
            r@ + it.remaining() == s@,
            it.decrease() is Some,
        ensures
            r@ == s@,
        decreases it.decrease()->0,
    {
        match it.next() {
            Some(c) => {
                r.push(c);
            },
            None => {
                assert(r@ + Seq::<char>::empty() =~= r@);
                break;
            },
        }
    }
    r
}

/// Where the field that starts at `i` ends.
fn end_of_field(s: &[char], i: usize) -> (r: usize)
    requires
        i <= s@.len(),
    ensures
        r == token_end(s@, i as int),
{
    let mut j = i;
    while j < s.len() && !char_is_space(s[j])
        invariant
            i <= j <= s@.len(),
            token_end(s@, i as int) == token_end(s@, j as int),
        decreases s@.len() - j,
    {
        j = j + 1;
    }
    j
}

/// Reads the user and system ticks from a thread's `stat` line. Fields are
/// separated by Unicode whitespace, as `str::split_whitespace` splits them.
pub fn stat_cpu_ticks(stat: &str) -> (r: Option<(u64, u64)>)
    ensures
        r == cpu_ticks(stat@),
{
    let chars = chars_of(stat);
    let s = chars.as_slice();
    let len = s.len();
    // The last ')'.
    let mut n = len;
    while n > 0 && s[n - 1] != ')'
        invariant
            n <= len,
            len == s@.len(),
            last_paren_before(s@, len as int) == last_paren_before(s@, n as int),
        decreases n,
    {
        n = n - 1;
    }
    if n == 0 {
        return None;
    }
    let ghost p = n - 1;
    assert(last_paren_before(s@, len as int) == Some(p));
    // The fields after it.
    let mut starts: Vec<usize> = Vec::new();
    let mut ends: Vec<usize> = Vec::new();
    let ghost mut found: Seq<Seq<char>> = Seq::empty();
    let mut i = n;
    while i < len
        invariant
            n <= i <= len,
            len == s@.len(),
            p == n - 1,
            fields_from(s@, p + 1) == found + fields_from(s@, i as int),
            starts@.len() == found.len(),
            ends@.len() == found.len(),
            forall|j: int| 0 <= j < found.len() ==> #[trigger] starts@[j] <= ends@[j],
            forall|j: int| 0 <= j < found.len() ==> #[trigger] ends@[j] <= len,
            forall|j: int|
                0 <= j < found.len() ==> #[trigger] found[j] == s@.subrange(
                    starts@[j] as int,
                    ends@[j] as int,
                ),
        decreases len - i,
    {
        if char_is_space(s[i]) {
            i = i + 1;
        } else {
            let start = i;
            proof {
                lemma_token_end(s@, i as int);
            }
            i = end_of_field(s, i);
            let ghost old_found = found;
            proof {
                found = found.push(s@.subrange(start as int, i as int));
            }
            starts.push(start);
            ends.push(i);
            assert forall|j: int| 0 <= j < found.len() implies #[trigger] found[j] == s@.subrange(
                starts@[j] as int,
                ends@[j] as int,
            ) by {
                if j < old_found.len() {
                    assert(found[j] == old_found[j]);
                }
            }
        }
    }
    assert(fields_from(s@, len as int) =~= Seq::<Seq<char>>::empty());
    assert(found =~= fields_from(s@, p + 1));
    if starts.len() <= 12 {
        return None;
    }
    let user = parse_ticks(&s[starts[11]..ends[11]]);
    let system = parse_ticks(&s[starts[12]..ends[12]]);
    match (user, system) {
        (Some(u), Some(y)) => Some((u, y)),
        _ => None,
    }
}

/// The nearest-rank pick of a rank from 1 to the length is the element of
/// that rank, counted from 1; a rank below 1 picks the first element, one
/// above the length the last; an empty list gives none. On a sorted list,
/// a higher rank never picks a smaller element.
pub proof fn lemma_at_rank(sorted: Seq<u32>, rank: int, other: int)
    ensures
        1 <= rank <= sorted.len() ==> at_rank(sorted, rank) == Some(sorted[rank - 1]),
        sorted.len() > 0 && rank < 1 ==> at_rank(sorted, rank) == Some(sorted[0]),
        sorted.len() > 0 && rank > sorted.len() ==> at_rank(sorted, rank) == Some(
            sorted[sorted.len() - 1],
        ),
        sorted.len() == 0 ==> at_rank(sorted, rank) is None,
        (forall|i: int, j: int| 0 <= i <= j < sorted.len() ==> sorted[i] <= sorted[j]) && rank
            <= other && sorted.len() > 0 ==> at_rank(sorted, rank)->0 <= at_rank(sorted, other)->0,
{
}

} // verus!

