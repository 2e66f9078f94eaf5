//! Character-level text handling: substring search, decimal numbers and padding.
use vstd::prelude::*;

verus! {

broadcast use vstd::string::group_string_axioms;

/// The characters of `s`, one per element.
pub fn chars_of(s: &str) -> (chars: Vec<char>)
    ensures
        chars@ == s@,
{
    let mut chars: Vec<char> = Vec::new();
    for c in it: s.chars()
        invariant
            chars@ == it.seq().take(it.index() as int),
            it.seq() == s@,
    {
        chars.push(c);
    }
    chars
}

/// `needle` occurs in `hay` starting at position `i`.
pub open spec fn occurs_at(hay: Seq<char>, needle: Seq<char>, i: int) -> bool {
    0 <= i && i + needle.len() <= hay.len() && hay.subrange(i, i + needle.len()) == needle
}

/// `needle` occurs somewhere in `hay`.
pub open spec fn has_substring(hay: Seq<char>, needle: Seq<char>) -> bool {
    exists|i: int| occurs_at(hay, needle, i)
}

/// Whether `needle` occurs in `hay` starting at position `i`.
fn matches_at(hay: &Vec<char>, needle: &Vec<char>, i: usize) -> (found: bool)
    requires
        i + needle@.len() <= hay@.len(),
    ensures
        found == occurs_at(hay@, needle@, i as int),
{
    let m = needle.len();
    let mut k: usize = 0;
    while k < m
        invariant
            m == needle@.len(),
            i + m <= hay.len(),
            k <= m,
            forall|q: int| 0 <= q < k ==> hay@[i + q] == needle@[q],
        decreases m - k,
    {
        if hay[i + k] != needle[k] {
            assert(hay@.subrange(i as int, i + m)[k as int] != needle@[k as int]);
            return false;
        }
        k = k + 1;
    }
    assert(hay@.subrange(i as int, i + m) =~= needle@);
    true
}

/// Whether `needle` occurs in the character sequence `hay`.
pub fn seq_contains(hay: &Vec<char>, needle: &Vec<char>) -> (found: bool)
    ensures
        found == has_substring(hay@, needle@),
{
    let n = hay.len();
    let m = needle.len();
    if m > n {
        return false;
    }
    let last = n - m;
    let mut i: usize = 0;
    loop
        invariant
            n == hay@.len(),
            m == needle@.len(),
            last == n - m,
            i <= last,
            forall|q: int| 0 <= q < i ==> !occurs_at(hay@, needle@, q),
        decreases last - i,
    {
        if matches_at(hay, needle, i) {
            return true;
        }
        if i == last {
            return false;
        }
        i = i + 1;
    }
}

/// Whether `needle` occurs in `hay`.
pub fn str_contains(hay: &str, needle: &str) -> (found: bool)
    ensures
        found == has_substring(hay@, needle@),
{
    let h = chars_of(hay);
    let n = chars_of(needle);
    seq_contains(&h, &n)
}

// ---------------------------------------------------------------------------
// Reading decimal numbers
// ---------------------------------------------------------------------------

/// The value of the ASCII decimal digit `c`, or -1 when `c` is not one.
pub open spec fn digit_value(c: char) -> int {
    if c == '0' {
        0
    } else if c == '1' {
        1
    } else if c == '2' {
        2
    } else if c == '3' {
        3
    } else if c == '4' {
        4
    } else if c == '5' {
        5
    } else if c == '6' {
        6
    } else if c == '7' {
        7
    } else if c == '8' {
        8
    } else if c == '9' {
        9
    } else {
        -1
    }
}

/// An ASCII decimal digit.
pub open spec fn is_digit(c: char) -> bool {
    digit_value(c) >= 0
}

/// The value of the ASCII decimal digit `c`, if it is one.
pub fn digit_of(c: char) -> (d: Option<u8>)
    ensures
        d is Some <==> is_digit(c),
        d matches Some(v) ==> v == digit_value(c),
{
    match c {
        '0' => Some(0),
        '1' => Some(1),
        '2' => Some(2),
        '3' => Some(3),
        '4' => Some(4),
        '5' => Some(5),
        '6' => Some(6),
        '7' => Some(7),
        '8' => Some(8),
        '9' => Some(9),
        _ => None,
    }
}

/// The value of a string of decimal digits, most significant first.
pub open spec fn digits_value(s: Seq<char>) -> int
    decreases s.len(),
{
    if s.len() == 0 {
        0
    } else {
        digits_value(s.drop_last()) * 10 + digit_value(s.last())
    }
}

/// Every character of `s` is a decimal digit.
pub open spec fn all_digits(s: Seq<char>) -> bool {
    forall|i: int| 0 <= i < s.len() ==> is_digit(#[trigger] s[i])
}

/// What reading `s` as a signed 64-bit decimal number gives: an optional `+` or `-`,
/// then one or more ASCII digits, with a value that fits.
pub open spec fn decimal_i64(s: Seq<char>) -> Option<i64> {
    let negative = s.len() > 0 && s[0] == '-';
    let body = if s.len() > 0 && (s[0] == '-' || s[0] == '+') { s.drop_first() } else { s };
    let value = if negative { -digits_value(body) } else { digits_value(body) };
    if body.len() > 0 && all_digits(body) && i64::MIN <= value <= i64::MAX {
        Some(value as i64)
    } else {
        None
    }
}

proof fn lemma_digits_value_nonneg(s: Seq<char>)
    requires
        all_digits(s),
    ensures
        digits_value(s) >= 0,
    decreases s.len(),
{
    if s.len() > 0 {
        lemma_digits_value_nonneg(s.drop_last());
    }
}

/// A longer run of digits is worth at least as much as any of its prefixes.
proof fn lemma_digits_value_grows(s: Seq<char>, k: int)
    requires
        all_digits(s),
        0 <= k <= s.len(),
    ensures
        digits_value(s.take(k)) <= digits_value(s),
    decreases s.len() - k,
{
    if k < s.len() {
        lemma_digits_value_grows(s, k + 1);
        let a = s.take(k + 1);
        assert(a.drop_last() =~= s.take(k));
        assert(all_digits(s.take(k)));
        lemma_digits_value_nonneg(s.take(k));
        assert(a.last() == s[k]);
        assert(is_digit(s[k]));
        assert(digits_value(a) == digits_value(s.take(k)) * 10 + digit_value(s[k]));
    } else {
        assert(s.take(k) =~= s);
    }
}

/// Reads `text` as a signed 64-bit decimal number, as Rust's `i64` parser does.
pub fn parse_i64(text: &str) -> (value: Option<i64>)
    ensures
        value == decimal_i64(text@),
{
    let s = chars_of(text);
    let n = s.len();
    let negative = n > 0 && s[0] == '-';
    let start: usize = if n > 0 && (s[0] == '-' || s[0] == '+') { 1 } else { 0 };
    let ghost body = if n > 0 && (s@[0] == '-' || s@[0] == '+') { s@.drop_first() } else { s@ };
    assert(body =~= s@.subrange(start as int, n as int));
    if start >= n {
        assert(body.len() == 0);
        return None;
    }
    let mut acc: i128 = 0;
    let mut i: usize = start;
    while i < n
        invariant
            n == s@.len(),
            s@ == text@,
            start <= i <= n,
            body == s@.subrange(start as int, n as int),
            body == (if n > 0 && (s@[0] == '-' || s@[0] == '+') { s@.drop_first() } else { s@ }),
            all_digits(body.take(i - start)),
            acc == digits_value(body.take(i - start)),
            0 <= acc <= 9223372036854775808,
        decreases n - i,
    {
        let c = s[i];
        let digit = digit_of(c);
        if digit.is_none() {
            assert(body[i - start] == c);
            assert(!is_digit(body[i - start]));
            assert(!all_digits(body));
            return None;
        }
        proof {
            assert(body.take(i - start + 1).drop_last() =~= body.take(i - start));
            assert(body.take(i - start + 1).last() == c);
        }
        let d: i128 = match digit {
            Some(v) => v as i128,
            None => 0,
        };
        assert(d == digit_value(c));
        acc = acc * 10 + d;
        i = i + 1;
        if acc > 9223372036854775808 {
            let ghost k0 = (i - start) as int;
            // Every digit left to read only makes the value larger.
            while i < n
                invariant
                    n == s@.len(),
                    s@ == text@,
                    start <= i <= n,
                    body == s@.subrange(start as int, n as int),
                    body == (if n > 0 && (s@[0] == '-' || s@[0] == '+') { s@.drop_first() } else { s@ }),
                    0 <= k0 <= i - start,
                    all_digits(body.take(i - start)),
                    digits_value(body.take(k0)) > 9223372036854775808,
                decreases n - i,
            {
                let c2 = s[i];
                if digit_of(c2).is_none() {
                    assert(body[i - start] == c2);
                    assert(!is_digit(body[i - start]));
                    assert(!all_digits(body));
                    return None;
                }
                assert(body.take(i - start + 1) =~= body.take(i - start).push(c2));
                i = i + 1;
            }
            proof {
                assert(body.take(i - start) =~= body);
                lemma_digits_value_grows(body, k0);
                assert(digits_value(body) > 9223372036854775808);
            }
            return None;
        }
    }
    assert(body.take(n - start) =~= body);
    if negative {
        Some((-acc) as i64)
    } else if acc <= 9223372036854775807 {
        Some(acc as i64)
    } else {
        None
    }
}


// ---------------------------------------------------------------------------
// Writing decimal numbers
// ---------------------------------------------------------------------------

/// The character of the decimal digit `d`.
pub open spec fn digit_char(d: nat) -> char {
    if d == 0 {
        '0'
    } else if d == 1 {
        '1'
    } else if d == 2 {
        '2'
    } else if d == 3 {
        '3'
    } else if d == 4 {
        '4'
    } else if d == 5 {
        '5'
    } else if d == 6 {
        '6'
    } else if d == 7 {
        '7'
    } else if d == 8 {
        '8'
    } else {
        '9'
    }
}

/// The decimal digits of `n`, most significant first, with no leading zero.
pub open spec fn digits_of(n: nat) -> Seq<char>
    decreases n,
{
    if n < 10 {
        seq![digit_char(n)]
    } else {
        digits_of(n / 10).push(digit_char(n % 10))
    }
}

/// `n` written in decimal, with a leading `-` when negative.
pub open spec fn int_text(n: int) -> Seq<char> {
    if n < 0 {
        seq!['-'] + digits_of((-n) as nat)
    } else {
        digits_of(n as nat)
    }
}

/// `s` written `k` times in a row.
pub open spec fn repeat(s: Seq<char>, k: nat) -> Seq<char>
    decreases k,
{
    if k == 0 {
        seq![]
    } else {
        repeat(s, (k - 1) as nat) + s
    }
}

/// `k` copies of `c`, none when `k` is not positive.
pub open spec fn fill(c: char, k: int) -> Seq<char> {
    repeat(seq![c], if k > 0 { k as nat } else { 0 })
}

/// `s` right-aligned in a field of `width` characters, padded with spaces.
pub open spec fn right_aligned(s: Seq<char>, width: int) -> Seq<char> {
    fill(' ', width - s.len()) + s
}

/// `n` in a field of `width` characters, zeros between the sign and the digits.
pub open spec fn zero_padded(n: int, width: int) -> Seq<char> {
    if n < 0 {
        seq!['-'] + fill('0', width - 1 - digits_of((-n) as nat).len()) + digits_of((-n) as nat)
    } else {
        fill('0', width - digits_of(n as nat).len()) + digits_of(n as nat)
    }
}

/// The one-character text of the digit `d`.
fn digit_str(d: u64) -> (s: &'static str)
    requires
        d < 10,
    ensures
        s@ == seq![digit_char(d as nat)],
{
    proof {
        reveal_strlit("0");
        reveal_strlit("1");
        reveal_strlit("2");
        reveal_strlit("3");
        reveal_strlit("4");
        reveal_strlit("5");
        reveal_strlit("6");
        reveal_strlit("7");
        reveal_strlit("8");
        reveal_strlit("9");
    }
    if d == 0 {
        "0"
    } else if d == 1 {
        "1"
    } else if d == 2 {
        "2"
    } else if d == 3 {
        "3"
    } else if d == 4 {
        "4"
    } else if d == 5 {
        "5"
    } else if d == 6 {
        "6"
    } else if d == 7 {
        "7"
    } else if d == 8 {
        "8"
    } else {
        "9"
    }
}

/// Appends the decimal digits of `n`.
pub fn push_digits(out: &mut String, n: u64)
    ensures
        final(out)@ == old(out)@ + digits_of(n as nat),
    decreases n,
{
    if n >= 10 {
        push_digits(out, n / 10);
    }
    out.append(digit_str(n % 10));
    assert(final(out)@ =~= old(out)@ + digits_of(n as nat)) by {
        if n >= 10 {
            assert(digits_of(n as nat) == digits_of((n / 10) as nat).push(digit_char((n % 10) as nat)));
        }
    }
}

/// How many decimal digits `n` has.
pub fn digit_count(n: u64) -> (count: u64)
    ensures
        count == digits_of(n as nat).len(),
        count <= n + 1,
    decreases n,
{
    if n >= 10 {
        digit_count(n / 10) + 1
    } else {
        1
    }
}

/// The magnitude of `n`.
fn magnitude(n: i64) -> (m: u64)
    ensures
        m as int == if n < 0 { -(n as int) } else { n as int },
{
    if n < 0 {
        (-(n as i128)) as u64
    } else {
        n as u64
    }
}

/// Appends `n` in decimal.
pub fn push_int(out: &mut String, n: i64)
    ensures
        final(out)@ == old(out)@ + int_text(n as int),
{
    proof {
        reveal_strlit("-");
    }
    if n < 0 {
        out.append("-");
    }
    push_digits(out, magnitude(n));
    assert(final(out)@ =~= old(out)@ + int_text(n as int));
}

/// Appends `piece` written `count` times.
pub fn push_repeat(out: &mut String, piece: &str, count: usize)
    ensures
        final(out)@ == old(out)@ + repeat(piece@, count as nat),
{
    let mut k: usize = 0;
    while k < count
        invariant
            k <= count,
            out@ == old(out)@ + repeat(piece@, k as nat),
        decreases count - k,
    {
        out.append(piece);
        k = k + 1;
        assert(out@ =~= old(out)@ + repeat(piece@, k as nat));
    }
}

/// Appends `fill_char` (one character) `k` times, nothing when `k` is not positive.
fn push_fill(out: &mut String, fill_char: &str, c: Ghost<char>, k: i128)
    requires
        fill_char@ == seq![c@],
        k <= usize::MAX,
    ensures
        final(out)@ == old(out)@ + fill(c@, k as int),
{
    let count: usize = if k > 0 { k as usize } else { 0 };
    push_repeat(out, fill_char, count);
}

/// Appends `n` right-aligned in a field of `width` characters (`{:width}`).
pub fn push_int_right_aligned(out: &mut String, n: i64, width: usize)
    ensures
        final(out)@ == old(out)@ + right_aligned(int_text(n as int), width as int),
{
    proof {
        reveal_strlit(" ");
    }
    let m = magnitude(n);
    let len: i128 = digit_count(m) as i128 + if n < 0 { 1 } else { 0 };
    assert(" "@ =~= seq![' ']);
    push_fill(out, " ", Ghost(' '), width as i128 - len);
    push_int(out, n);
    assert(final(out)@ =~= old(out)@ + right_aligned(int_text(n as int), width as int));
}

/// Appends `n` in a field of `width` characters, zeros between sign and digits (`{:0width}`).
pub fn push_int_zero_padded(out: &mut String, n: i64, width: usize)
    ensures
        final(out)@ == old(out)@ + zero_padded(n as int, width as int),
{
    proof {
        reveal_strlit("0");
        reveal_strlit("-");
    }
    let m = magnitude(n);
    let count = digit_count(m) as i128;
    assert("0"@ =~= seq!['0']);
    if n < 0 {
        out.append("-");
        push_fill(out, "0", Ghost('0'), width as i128 - 1 - count);
    } else {
        push_fill(out, "0", Ghost('0'), width as i128 - count);
    }
    push_digits(out, m);
    assert(final(out)@ =~= old(out)@ + zero_padded(n as int, width as int));
}


/// Whether two texts are the same.
pub fn same_text(a: &str, b: &str) -> (same: bool)
    ensures
        same == (a@ == b@),
{
    let x = chars_of(a);
    let y = chars_of(b);
    if x.len() != y.len() {
        return false;
    }
    let n = x.len();
    let mut i: usize = 0;
    while i < n
        invariant
            n == x@.len(),
            n == y@.len(),
            x@ == a@,
            y@ == b@,
            i <= n,
            forall|k: int| 0 <= k < i ==> x@[k] == y@[k],
        decreases n - i,
    {
        if x[i] != y[i] {
            assert(a@[i as int] != b@[i as int]);
            return false;
        }
        i = i + 1;
    }
    assert(x@ =~= y@);
    true
}

/// Whether `bytes` holds a zero byte.
pub fn contains_nul(bytes: &Vec<u8>) -> (found: bool)
    ensures
        found == exists|i: int| 0 <= i < bytes@.len() && bytes@[i] == 0,
{
    let n = bytes.len();
    let mut i: usize = 0;
    while i < n
        invariant
            n == bytes@.len(),
            i <= n,
            forall|k: int| 0 <= k < i ==> bytes@[k] != 0,
        decreases n - i,
    {
        if bytes[i] == 0 {
            return true;
        }
        i = i + 1;
    }
    false
}

} // verus!
