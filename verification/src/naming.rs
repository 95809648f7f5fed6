use vstd::prelude::*;

verus! {

pub open spec fn is_digit(c: char) -> bool {
    '0' <= c <= '9'
}

pub open spec fn digit_value(c: char) -> int {
    c as int - '0' as int
}

pub open spec fn all_digits(d: Seq<char>) -> bool {
    forall|i: int| 0 <= i < d.len() ==> is_digit(#[trigger] d[i])
}

/// The number a string of decimal digits writes.
pub open spec fn digits_value(d: Seq<char>) -> int
    decreases d.len(),
{
    if d.len() == 0 {
        0
    } else {
        digits_value(d.drop_last()) * 10 + digit_value(d.last())
    }
}

/// What `u32::from_str` makes of a string: an optional `+`, then one or more
/// decimal digits writing a number that fits in a `u32`.
pub open spec fn parse_u32_spec(t: Seq<char>) -> Option<u32> {
    let d = if t.len() > 0 && t[0] == '+' { t.drop_first() } else { t };
    if d.len() > 0 && all_digits(d) && digits_value(d) <= u32::MAX {
        Some(digits_value(d) as u32)
    } else {
        None
    }
}

pub open spec fn digit_char(d: int) -> char {
    (d + '0' as int) as char
}

/// The decimal writing of `n`, without leading zeros.
pub open spec fn decimal(n: nat) -> Seq<char>
    decreases n,
{
    if n < 10 {
        seq![digit_char(n as int)]
    } else {
        decimal(n / 10) + seq![digit_char((n % 10) as int)]
    }
}

/// The version marker `" v"` starts at `p`.
pub open spec fn marker_at(s: Seq<char>, p: int) -> bool {
    0 <= p && p + 1 < s.len() && s[p] == ' ' && s[p + 1] == 'v'
}

/// The last start of a version marker at or before `p`.
pub open spec fn last_marker_from(s: Seq<char>, p: int) -> Option<int>
    decreases p + 1,
{
    if p < 0 {
        None
    } else if marker_at(s, p) {
        Some(p)
    } else {
        last_marker_from(s, p - 1)
    }
}

/// Where the last `" v"` of a name starts.
pub open spec fn last_marker(s: Seq<char>) -> Option<int> {
    last_marker_from(s, s.len() - 2)
}

/// The version a name carries: the number after its last `" v"`, when all
/// that follows the marker parses as a `u32`.
pub open spec fn version_of(s: Seq<char>) -> Option<u32> {
    match last_marker(s) {
        Some(p) => parse_u32_spec(s.subrange(p + 2, s.len() as int)),
        None => None,
    }
}

/// A name with the version marker and the decimal version `k` appended.
pub open spec fn versioned(base: Seq<char>, k: nat) -> Seq<char> {
    base + seq![' ', 'v'] + decimal(k)
}

/// The name a copy gets: a name carrying version `k` gets version `k + 1`
/// in place of it; any other name gets `" v2"` appended.
pub open spec fn next_name_spec(s: Seq<char>) -> Seq<char> {
    match version_of(s) {
        Some(k) => versioned(s.subrange(0, last_marker(s)->0), (k + 1) as nat),
        None => versioned(s, 2),
    }
}

proof fn lemma_last_marker_from_bounds(s: Seq<char>, p: int)
    ensures
        last_marker_from(s, p) matches Some(q) ==> q <= p && marker_at(s, q),
        last_marker_from(s, p) is None ==> forall|q: int| 0 <= q <= p ==> !#[trigger] marker_at(s, q),
    decreases p + 1,
{
    if p >= 0 && !marker_at(s, p) {
        lemma_last_marker_from_bounds(s, p - 1);
    }
}

fn digit_str(d: u64) -> (r: &'static str)
    requires
        d < 10,
    ensures
        r@ == seq![digit_char(d as int)],
{
    proof {
        reveal_strlit("0");
        reveal_strlit("1");
        reveal_strlit("2");
        reveal_strlit("3");
        reveal_strlit("4");
        reveal_strlit("5");
        reveal_strlit("6");
        reveal_strlit("7");
        reveal_strlit("8");
        reveal_strlit("9");
    }
    if d == 0 {
        "0"
    } else if d == 1 {
        "1"
    } else if d == 2 {
        "2"
    } else if d == 3 {
        "3"
    } else if d == 4 {
        "4"
    } else if d == 5 {
        "5"
    } else if d == 6 {
        "6"
    } else if d == 7 {
        "7"
    } else if d == 8 {
        "8"
    } else {
        "9"
    }
}

fn push_decimal(out: &mut String, n: u64)
    ensures
        final(out)@ == old(out)@ + decimal(n as nat),
    decreases n,
{
    if n >= 10 {
        push_decimal(out, n / 10);
    }
    out.append(digit_str(n % 10));
    proof {
        if n >= 10 {
            assert(final(out)@ =~= old(out)@ + decimal(n as nat));
        } else {
            assert(final(out)@ =~= old(out)@ + decimal(n as nat));
        }
    }
}

proof fn lemma_digits_value_prefix(d: Seq<char>, m: int)
    requires
        all_digits(d),
        0 <= m <= d.len(),
    ensures
        digits_value(d.take(m)) <= digits_value(d),
    decreases d.len(),
{
    if m < d.len() {
        lemma_digits_value_prefix(d.drop_last(), m);
        assert(d.drop_last().take(m) =~= d.take(m));
        assert(is_digit(d[d.len() - 1]));
        assert(0 <= digits_value(d.drop_last())) by {
            lemma_digits_value_nonneg(d.drop_last());
        }
    } else {
        assert(d.take(m) =~= d);
    }
}

proof fn lemma_digits_value_nonneg(d: Seq<char>)
    requires
        all_digits(d),
    ensures
        0 <= digits_value(d),
    decreases d.len(),
{
    if d.len() > 0 {
        lemma_digits_value_nonneg(d.drop_last());
        assert(is_digit(d[d.len() - 1]));
    }
}

/// The chars of a string, one by one.
fn chars_of(s: &str) -> (cs: Vec<char>)
    ensures
        cs@ == s@,
{
    let n = s.unicode_len();
    let mut cs: Vec<char> = Vec::new();
    let mut i: usize = 0;
    while i < n
        invariant
            i <= n,
            n == s@.len(),
            cs@ =~= s@.take(i as int),
        decreases n - i,
    {
        cs.push(s.get_char(i));
        i += 1;
    }
    cs
}

/// What `u32::from_str` makes of the chars from `start` on.
fn parse_u32_from(cs: &Vec<char>, start: usize) -> (r: Option<u32>)
    requires
        start <= cs@.len(),
    ensures
        r == parse_u32_spec(cs@.subrange(start as int, cs@.len() as int)),
{
    let ghost t = cs@.subrange(start as int, cs@.len() as int);
    let n = cs.len();
    let mut i = start;
    if i < n && cs[i] == '+' {
        i += 1;
    }
    let ghost d = cs@.subrange(i as int, n as int);
    assert(d =~= (if t.len() > 0 && t[0] == '+' { t.drop_first() } else { t }));
    if i == n {
        return None;
    }
    let ds = i;
    let mut acc: u64 = 0;
    while i < n
        invariant
            ds <= i <= n,
            n == cs@.len(),
            d == cs@.subrange(ds as int, n as int),
            t == cs@.subrange(start as int, cs@.len() as int),
            d == (if t.len() > 0 && t[0] == '+' { t.drop_first() } else { t }),
            d.len() > 0,
            all_digits(d.take(i - ds)),
            acc == digits_value(d.take(i - ds)),
            acc <= u32::MAX,
        decreases n - i,
    {
        let c = cs[i];
        if !('0' <= c && c <= '9') {
            assert(d[i - ds] == c);
            assert(!all_digits(d));
            return None;
        }
        let ghost pre = d.take(i - ds);
        let ghost next = d.take(i - ds + 1);
        assert(next.drop_last() =~= pre);
        assert(next.last() == c);
        acc = acc * 10 + (c as u64 - '0' as u64);
        i += 1;
        assert(all_digits(d.take(i - ds))) by {
            assert(d.take(i - ds) =~= next);
        }
        assert(acc == digits_value(d.take(i - ds))) by {
            assert(d.take(i - ds) =~= next);
        }
        if acc > 0xffff_ffff {
            proof {
                if all_digits(d) {
                    lemma_digits_value_prefix(d, i - ds);
                }
            }
            return None;
        }
    }
    assert(d.take(n - ds) =~= d);
    Some(acc as u32)
}

/// The start of the last `" v"` in the chars, if any.
fn find_last_marker(cs: &Vec<char>) -> (r: Option<usize>)
    ensures
        r matches Some(p) ==> last_marker(cs@) == Some(p as int),
        r is None ==> last_marker(cs@) is None,
{
    let n = cs.len();
    let mut i = n;
    while i >= 2
        invariant
            i <= n,
            n == cs@.len(),
            last_marker(cs@) == last_marker_from(cs@, i - 2),
        decreases i,
    {
        if cs[i - 2] == ' ' && cs[i - 1] == 'v' {
            return Some(i - 2);
        }
        i -= 1;
    }
    None
}

/// The version a name carries, if it carries one.
pub fn version_suffix(name: &str) -> (r: Option<u32>)
    ensures
        r == version_of(name@),
{
    let cs = chars_of(name);
    match find_last_marker(&cs) {
        Some(p) => {
            proof {
                lemma_last_marker_from_bounds(cs@, cs@.len() - 2);
            }
            parse_u32_from(&cs, p + 2)
        },
        None => None,
    }
}

/// The name of a copy: `"name vK"` becomes `"name vK+1"`, any other name
/// gets `" v2"` appended.
pub fn next_version_name(name: &str) -> (r: String)
    requires
        version_of(name@) != Some(u32::MAX),
    ensures
        r@ == next_name_spec(name@),
{
    let cs = chars_of(name);
    let n = cs.len();
    proof {
        reveal_strlit(" v");
        reveal_strlit(" v2");
    }
    match find_last_marker(&cs) {
        Some(p) => {
            proof {
                lemma_last_marker_from_bounds(cs@, cs@.len() - 2);
            }
            assert(p + 2 <= n);
            match parse_u32_from(&cs, p + 2) {
                Some(version) => {
                    let mut out = String::from_str(name.substring_char(0, p));
                    out.append(" v");
                    push_decimal(&mut out, version as u64 + 1);
                    out
                },
                None => {
                    let mut out = String::from_str(name);
                    out.append(" v2");
                    out
                },
            }
        },
        None => {
            let mut out = String::from_str(name);
            out.append(" v2");
            out
        },
    }
}

proof fn lemma_decimal(n: nat)
    ensures
        decimal(n).len() > 0,
        all_digits(decimal(n)),
        digits_value(decimal(n)) == n,
    decreases n,
{
    let d = decimal(n);
    assert(digit_value(digit_char((n % 10) as int)) == n % 10);
    assert(d.last() == digit_char((n % 10) as int));
    if n >= 10 {
        lemma_decimal(n / 10);
        assert(d.drop_last() =~= decimal(n / 10));
        assert(digits_value(d) == digits_value(d.drop_last()) * 10 + digit_value(d.last()));
        assert forall|i: int| 0 <= i < d.len() implies is_digit(#[trigger] d[i]) by {
            if i < d.len() - 1 {
                assert(d[i] == decimal(n / 10)[i]);
            }
        }
    } else {
        assert(d.drop_last() =~= Seq::<char>::empty());
        assert(digits_value(d) == digits_value(d.drop_last()) * 10 + digit_value(d.last()));
    }
}

proof fn lemma_marker_search(s: Seq<char>, b: int, p: int)
    requires
        0 <= b <= p,
        marker_at(s, b),
        forall|q: int| b < q < s.len() ==> s[q] != ' ',
    ensures
        last_marker_from(s, p) == Some(b),
    decreases p - b,
{
    if p > b {
        lemma_marker_search(s, b, p - 1);
    }
}

/// A name that already carries version `k` as its last `" v"` marker reports
/// `k` as its version.
pub proof fn lemma_version_of_versioned(base: Seq<char>, k: nat)
    requires
        k <= u32::MAX,
    ensures
        version_of(versioned(base, k)) == Some(k as u32),
        last_marker(versioned(base, k)) == Some(base.len() as int),
{
    let s = versioned(base, k);
    let d = decimal(k);
    lemma_decimal(k);
    let b = base.len() as int;
    assert(s[b] == ' ' && s[b + 1] == 'v');
    assert forall|q: int| b < q < s.len() implies s[q] != ' ' by {
        if q > b + 1 {
            assert(s[q] == d[q - b - 2]);
            assert(is_digit(d[q - b - 2]));
        }
    }
    lemma_marker_search(s, b, s.len() - 2);
    assert(s.subrange(b + 2, s.len() as int) =~= d);
    assert(is_digit(d[0]));
}

/// Copying a copy counts its version up: a name carrying version `k` (below
/// the largest `u32`) is renamed to the same base carrying version `k + 1`.
pub proof fn lemma_next_name_counts_up(base: Seq<char>, k: nat)
    requires
        k < u32::MAX,
    ensures
        next_name_spec(versioned(base, k)) == versioned(base, k + 1),
{
    lemma_version_of_versioned(base, k);
    let s = versioned(base, k);
    assert(s.subrange(0, base.len() as int) =~= base);
}

/// Whatever the name, the copy's name ends in a version marker and a
/// positive decimal version.
pub proof fn lemma_next_name_is_versioned(s: Seq<char>)
    requires
        version_of(s) != Some(u32::MAX),
    ensures
        exists|base: Seq<char>, k: nat| k >= 1 && #[trigger] versioned(base, k) == next_name_spec(s),
{
    match version_of(s) {
        Some(k) => {
            let base = s.subrange(0, last_marker(s)->0);
            assert(versioned(base, (k + 1) as nat) == next_name_spec(s));
        },
        None => {
            assert(versioned(s, 2) == next_name_spec(s));
        },
    }
}

} // verus!
