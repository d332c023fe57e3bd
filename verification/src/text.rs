//! Character-level helpers shared by the parsers of the relay.

use vstd::prelude::*;

verus! {

/// Whether `c` carries the Unicode `White_Space` property, which is what
/// `char::is_whitespace` and `str::trim` go by.
pub open spec fn is_white_space(c: char) -> bool {
    let u = c as u32;
    ||| (0x09 <= u && u <= 0x0d)
    ||| u == 0x20
    ||| u == 0x85
    ||| u == 0xa0
    ||| u == 0x1680
    ||| (0x2000 <= u && u <= 0x200a)
    ||| u == 0x2028
    ||| u == 0x2029
    ||| u == 0x202f
    ||| u == 0x205f
    ||| u == 0x3000
}

/// `s` without its leading white space.
pub open spec fn trim_start_spec(s: Seq<char>) -> Seq<char>
    decreases s.len(),
{
    if s.len() > 0 && is_white_space(s[0]) {
        trim_start_spec(s.drop_first())
    } else {
        s
    }
}

/// `s` without its trailing white space.
pub open spec fn trim_end_spec(s: Seq<char>) -> Seq<char>
    decreases s.len(),
{
    if s.len() > 0 && is_white_space(s.last()) {
        trim_end_spec(s.drop_last())
    } else {
        s
    }
}

/// `s` without leading and trailing white space.
pub open spec fn trim_spec(s: Seq<char>) -> Seq<char> {
    trim_end_spec(trim_start_spec(s))
}

pub fn is_white_space_char(c: char) -> (res: bool)
    ensures
        res == is_white_space(c),
{
    let u = c as u32;
    (0x09 <= u && u <= 0x0d) || u == 0x20 || u == 0x85 || u == 0xa0 || u == 0x1680 || (0x2000
        <= u && u <= 0x200a) || u == 0x2028 || u == 0x2029 || u == 0x202f || u == 0x205f || u
        == 0x3000
}

proof fn lemma_trim_start_skip(s: Seq<char>, i: int)
    requires
        0 <= i <= s.len(),
        forall|k: int| 0 <= k < i ==> is_white_space(#[trigger] s[k]),
    ensures
        trim_start_spec(s) == trim_start_spec(s.subrange(i, s.len() as int)),
    decreases i,
{
    if i > 0 {
        let t = s.drop_first();
        assert forall|k: int| 0 <= k < i - 1 implies is_white_space(#[trigger] t[k]) by {
            assert(t[k] == s[k + 1]);
        }
        lemma_trim_start_skip(t, i - 1);
        assert(t.subrange(i - 1, t.len() as int) =~= s.subrange(i, s.len() as int));
    } else {
        assert(s.subrange(0, s.len() as int) =~= s);
    }
}

proof fn lemma_trim_end_skip(s: Seq<char>, j: int)
    requires
        0 <= j <= s.len(),
        forall|k: int| j <= k < s.len() ==> is_white_space(#[trigger] s[k]),
    ensures
        trim_end_spec(s) == trim_end_spec(s.subrange(0, j)),
    decreases s.len() - j,
{
    if j < s.len() {
        let t = s.drop_last();
        assert forall|k: int| j <= k < t.len() implies is_white_space(#[trigger] t[k]) by {
            assert(t[k] == s[k]);
        }
        lemma_trim_end_skip(t, j);
        assert(t.subrange(0, j) =~= s.subrange(0, j));
    } else {
        assert(s.subrange(0, j) =~= s);
    }
}

/// Gives back `s` without leading and trailing white space, as `str::trim`.
pub fn trim(s: &str) -> (res: String)
    ensures
        res@ == trim_spec(s@),
{
    let n = s.unicode_len();
    let mut i: usize = 0;
    while i < n && is_white_space_char(s.get_char(i))
        invariant
            n == s@.len(),
            i <= n,
            forall|k: int| 0 <= k < i ==> is_white_space(#[trigger] s@[k]),
        decreases n - i,
    {
        i = i + 1;
    }
    let mut j: usize = n;
    while j > i && is_white_space_char(s.get_char(j - 1))
        invariant
            n == s@.len(),
            i <= j <= n,
            forall|k: int| j <= k < n ==> is_white_space(#[trigger] s@[k]),
        decreases j,
    {
        j = j - 1;
    }
    proof {
        lemma_trim_start_skip(s@, i as int);
        let rest = s@.subrange(i as int, n as int);
        if i < n {
            assert(!is_white_space(rest[0]));
        }
        assert(trim_start_spec(rest) == rest);
        assert forall|k: int| (j - i) <= k < rest.len() implies is_white_space(#[trigger] rest[k]) by {
            assert(rest[k] == s@[k + i]);
        }
        lemma_trim_end_skip(rest, (j - i) as int);
        let mid = rest.subrange(0, (j - i) as int);
        assert(mid =~= s@.subrange(i as int, j as int));
        if j > i {
            assert(!is_white_space(mid.last()));
        }
        assert(trim_end_spec(mid) == mid);
    }
    let sub = s.substring_char(i, j);
    String::from_str(sub)
}

/// Whether the two strings hold the same characters.
pub fn str_eq(a: &str, b: &str) -> (res: bool)
    ensures
        res == (a@ == b@),
{
    let n = a.unicode_len();
    let m = b.unicode_len();
    if n != m {
        return false;
    }
    let mut i: usize = 0;
    while i < n
        invariant
            n == a@.len(),
            m == b@.len(),
            n == m,
            i <= n,
            forall|k: int| 0 <= k < i ==> a@[k] == b@[k],
        decreases n - i,
    {
        if a.get_char(i) != b.get_char(i) {
            return false;
        }
        i = i + 1;
    }
    assert(a@ =~= b@);
    true
}

/// Lexicographic order of character sequences by code point, which is the order in
/// which Rust compares strings (UTF-8 bytes order as code points do).
pub open spec fn seq_lt(a: Seq<char>, b: Seq<char>) -> bool
    decreases a.len(),
{
    if a.len() == 0 {
        b.len() > 0
    } else if b.len() == 0 {
        false
    } else if a[0] == b[0] {
        seq_lt(a.drop_first(), b.drop_first())
    } else {
        (a[0] as int) < (b[0] as int)
    }
}

pub proof fn lemma_seq_lt_irreflexive(a: Seq<char>)
    ensures
        !seq_lt(a, a),
    decreases a.len(),
{
    if a.len() > 0 {
        lemma_seq_lt_irreflexive(a.drop_first());
    }
}

pub proof fn lemma_seq_lt_transitive(a: Seq<char>, b: Seq<char>, c: Seq<char>)
    requires
        seq_lt(a, b),
        seq_lt(b, c),
    ensures
        seq_lt(a, c),
    decreases a.len(),
{
    if a.len() > 0 && b.len() > 0 && c.len() > 0 {
        if a[0] == b[0] && b[0] == c[0] {
            lemma_seq_lt_transitive(a.drop_first(), b.drop_first(), c.drop_first());
        }
    }
}

pub proof fn lemma_seq_lt_total(a: Seq<char>, b: Seq<char>)
    requires
        a != b,
    ensures
        seq_lt(a, b) || seq_lt(b, a),
    decreases a.len(),
{
    if a.len() > 0 && b.len() > 0 && a[0] == b[0] {
        if a.drop_first() == b.drop_first() {
            assert(a =~= seq![a[0]] + a.drop_first());
            assert(b =~= seq![b[0]] + b.drop_first());
        }
        lemma_seq_lt_total(a.drop_first(), b.drop_first());
    } else if a.len() > 0 && b.len() > 0 {
        let x = a[0] as int;
        let y = b[0] as int;
        assert(x != y);
    } else if a.len() == 0 && b.len() == 0 {
        assert(a =~= b);
    }
}

proof fn lemma_seq_lt_skip(a: Seq<char>, b: Seq<char>, i: int)
    requires
        0 <= i <= a.len(),
        i <= b.len(),
        a.subrange(0, i) == b.subrange(0, i),
    ensures
        seq_lt(a, b) == seq_lt(a.subrange(i, a.len() as int), b.subrange(i, b.len() as int)),
    decreases i,
{
    if i > 0 {
        assert(a[0] == a.subrange(0, i)[0]);
        assert(b[0] == b.subrange(0, i)[0]);
        assert(a.drop_first().subrange(0, i - 1) =~= a.subrange(0, i).drop_first());
        assert(b.drop_first().subrange(0, i - 1) =~= b.subrange(0, i).drop_first());
        lemma_seq_lt_skip(a.drop_first(), b.drop_first(), i - 1);
        assert(a.drop_first().subrange(i - 1, a.len() - 1) =~= a.subrange(i, a.len() as int));
        assert(b.drop_first().subrange(i - 1, b.len() - 1) =~= b.subrange(i, b.len() as int));
    } else {
        assert(a.subrange(0, a.len() as int) =~= a);
        assert(b.subrange(0, b.len() as int) =~= b);
    }
}

/// Whether `a` comes strictly before `b` in the order of strings.
pub fn str_lt(a: &str, b: &str) -> (res: bool)
    ensures
        res == seq_lt(a@, b@),
{
    let n = a.unicode_len();
    let m = b.unicode_len();
    let mut i: usize = 0;
    while i < n && i < m
        invariant
            n == a@.len(),
            m == b@.len(),
            i <= n,
            i <= m,
            a@.subrange(0, i as int) == b@.subrange(0, i as int),
        decreases n - i,
    {
        let x = a.get_char(i);
        let y = b.get_char(i);
        if x != y {
            proof {
                lemma_seq_lt_skip(a@, b@, i as int);
                let ra = a@.subrange(i as int, n as int);
                let rb = b@.subrange(i as int, m as int);
                assert(ra[0] == x && rb[0] == y);
            }
            return (x as u32) < (y as u32);
        }
        assert(a@.subrange(0, i + 1) =~= a@.subrange(0, i as int).push(x));
        assert(b@.subrange(0, i + 1) =~= b@.subrange(0, i as int).push(y));
        i = i + 1;
    }
    proof {
        lemma_seq_lt_skip(a@, b@, i as int);
    }
    i == n && i < m
}

/// The code of `c` after `to_ascii_lowercase`: ASCII capitals become small letters.
pub open spec fn lower_code(c: char) -> u32 {
    let u = c as u32;
    if 65 <= u && u <= 90 {
        (u + 32) as u32
    } else {
        u
    }
}

/// The codes of `s` after `to_ascii_lowercase`.
pub open spec fn lower_codes(s: Seq<char>) -> Seq<u32> {
    s.map_values(|c: char| lower_code(c))
}

/// The codes of `s`.
pub open spec fn codes(s: Seq<char>) -> Seq<u32> {
    s.map_values(|c: char| c as u32)
}

/// Whether `s`, with ASCII capitals lowered, is `word`.
pub fn lowered_equals(s: &str, word: &str) -> (res: bool)
    ensures
        res == (lower_codes(s@) == codes(word@)),
{
    let n = s.unicode_len();
    let m = word.unicode_len();
    if n != m {
        proof {
            assert(lower_codes(s@).len() != codes(word@).len());
        }
        return false;
    }
    let mut i: usize = 0;
    while i < n
        invariant
            n == s@.len(),
            m == word@.len(),
            n == m,
            i <= n,
            forall|k: int| 0 <= k < i ==> lower_code(#[trigger] s@[k]) == (word@[k] as u32),
        decreases n - i,
    {
        let c = s.get_char(i) as u32;
        let lc: u32 = if 65 <= c && c <= 90 { c + 32 } else { c };
        if lc != word.get_char(i) as u32 {
            proof {
                assert(lower_codes(s@)[i as int] != codes(word@)[i as int]);
            }
            return false;
        }
        i = i + 1;
    }
    assert(lower_codes(s@) =~= codes(word@));
    true
}

/// Why a string is not a decimal number, as `core::num::IntErrorKind` tells it.
#[derive(Debug, Clone, Copy, PartialEq, Eq, Structural)]
pub enum IntErrorKind {
    Empty,
    InvalidDigit,
    PosOverflow,
}

pub open spec fn is_digit(c: char) -> bool {
    48 <= (c as u32) && (c as u32) <= 57
}

pub open spec fn digit_value(c: char) -> nat {
    ((c as u32) - 48) as nat
}

/// Reads the decimal digits of `s` after the digits already read, whose value is
/// `acc`, left to right as `from_str_radix` does: a non-digit is an invalid digit,
/// a value above `max` an overflow, whichever comes first.
pub open spec fn digits_value(s: Seq<char>, acc: nat, max: nat) -> Result<nat, IntErrorKind>
    decreases s.len(),
{
    if s.len() == 0 {
        Ok(acc)
    } else if !is_digit(s[0]) {
        Err(IntErrorKind::InvalidDigit)
    } else if acc * 10 + digit_value(s[0]) > max {
        Err(IntErrorKind::PosOverflow)
    } else {
        digits_value(s.drop_first(), acc * 10 + digit_value(s[0]), max)
    }
}

/// What `str::parse` gives for an unsigned integer type whose largest value is
/// `max`: an optional `+`, then decimal digits.
pub open spec fn parse_unsigned_spec(s: Seq<char>, max: nat) -> Result<nat, IntErrorKind> {
    if s.len() == 0 {
        Err(IntErrorKind::Empty)
    } else if s[0] == '+' {
        if s.len() == 1 {
            Err(IntErrorKind::InvalidDigit)
        } else {
            digits_value(s.drop_first(), 0, max)
        }
    } else {
        digits_value(s, 0, max)
    }
}

/// Parses `s` as an unsigned decimal number no larger than `max`, as `str::parse`
/// does for an unsigned integer type whose largest value is `max`.
pub fn parse_unsigned(s: &str, max: u64) -> (res: Result<u64, IntErrorKind>)
    ensures
        match parse_unsigned_spec(s@, max as nat) {
            Ok(v) => res is Ok && res->Ok_0 == v,
            Err(e) => res == Err::<u64, IntErrorKind>(e),
        },
        res matches Ok(x) ==> x <= max,
{
    let n = s.unicode_len();
    if n == 0 {
        return Err(IntErrorKind::Empty);
    }
    let mut i: usize = 0;
    if s.get_char(0) == '+' {
        if n == 1 {
            return Err(IntErrorKind::InvalidDigit);
        }
        i = 1;
    }
    let ghost start = i as int;
    let mut acc: u64 = 0;
    proof {
        assert(s@.subrange(start, n as int) =~= if start == 1 { s@.drop_first() } else { s@ });
        assert(parse_unsigned_spec(s@, max as nat) == digits_value(s@.subrange(start, n as int), 0, max as nat));
    }
    while i < n
        invariant
            n == s@.len(),
            start <= i <= n,
            acc <= max,
            0 < n,
            parse_unsigned_spec(s@, max as nat) == digits_value(s@.subrange(start, n as int), 0, max as nat),
            digits_value(s@.subrange(start, n as int), 0, max as nat) == digits_value(
                s@.subrange(i as int, n as int),
                acc as nat,
                max as nat,
            ),
        decreases n - i,
    {
        let c = s.get_char(i);
        let code = c as u32;
        let rest = Ghost(s@.subrange(i as int, n as int));
        proof {
            assert(rest@[0] == c);
            assert(rest@.drop_first() =~= s@.subrange(i + 1, n as int));
        }
        if code < 48 || code > 57 {
            return Err(IntErrorKind::InvalidDigit);
        }
        let next: u128 = (acc as u128) * 10 + ((code - 48) as u128);
        if next > max as u128 {
            return Err(IntErrorKind::PosOverflow);
        }
        acc = next as u64;
        i = i + 1;
    }
    proof {
        assert(s@.subrange(n as int, n as int) =~= Seq::<char>::empty());
    }
    Ok(acc)
}

/// The text that `core::num::ParseIntError` displays for each kind.
pub open spec fn int_error_text(e: IntErrorKind) -> Seq<char> {
    match e {
        IntErrorKind::Empty => "cannot parse integer from empty string"@,
        IntErrorKind::InvalidDigit => "invalid digit found in string"@,
        IntErrorKind::PosOverflow => "number too large to fit in target type"@,
    }
}

pub fn int_error_message(e: IntErrorKind) -> (res: &'static str)
    ensures
        res@ == int_error_text(e),
{
    match e {
        IntErrorKind::Empty => "cannot parse integer from empty string",
        IntErrorKind::InvalidDigit => "invalid digit found in string",
        IntErrorKind::PosOverflow => "number too large to fit in target type",
    }
}

} // verus!
