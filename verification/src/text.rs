//! Plain text handling shared by the puzzle modules: characters of a string,
//! splitting, trimming, and decimal numbers.

use vstd::prelude::*;

verus! {

/// `String::push` appends one character.
pub assume_specification[ String::push ](s: &mut String, c: char)
    ensures
        final(s)@ == old(s)@.push(c),
;

/// The characters of `s`, in order.
pub fn chars_of(s: &str) -> (v: Vec<char>)
    ensures
        v@ == s@,
{
    let mut v: Vec<char> = Vec::new();
    for c in it: s.chars()
        invariant
            it.seq() == s@,
            v@ == s@.take(it.index()),
    {
        v.push(c);
    }
    assert(s@.take(s@.len() as int) == s@);
    v
}

/// The string made of the characters of `v`.
pub fn string_of(v: &Vec<char>) -> (s: String)
    ensures
        s@ == v@,
{
    let mut s = String::new();
    let mut i: usize = 0;
    while i < v.len()
        invariant
            i <= v.len(),
            s@ == v@.take(i as int),
        decreases v.len() - i,
    {
        s.push(v[i]);
        assert(v@.take(i + 1) == v@.take(i as int).push(v@[i as int]));
        i += 1;
    }
    assert(v@.take(v@.len() as int) == v@);
    s
}

/// The characters of `v` from `from` up to, not including, `to`.
pub fn slice_of(v: &Vec<char>, from: usize, to: usize) -> (r: Vec<char>)
    requires
        from <= to <= v.len(),
    ensures
        r@ == v@.subrange(from as int, to as int),
{
    let mut r: Vec<char> = Vec::new();
    let mut i: usize = from;
    while i < to
        invariant
            from <= i <= to <= v.len(),
            r@ == v@.subrange(from as int, i as int),
        decreases to - i,
    {
        r.push(v[i]);
        assert(v@.subrange(from as int, i + 1) == v@.subrange(from as int, i as int).push(
            v@[i as int],
        ));
        i += 1;
    }
    r
}

/// Whether two character vectors hold the same text.
pub fn same_text(a: &Vec<char>, b: &Vec<char>) -> (r: bool)
    ensures
        r == (a@ == b@),
{
    if a.len() != b.len() {
        return false;
    }
    let mut i: usize = 0;
    while i < a.len()
        invariant
            a.len() == b.len(),
            i <= a.len(),
            a@.take(i as int) == b@.take(i as int),
        decreases a.len() - i,
    {
        if a[i] != b[i] {
            return false;
        }
        assert(a@.take(i + 1) == a@.take(i as int).push(a@[i as int]));
        assert(b@.take(i + 1) == b@.take(i as int).push(b@[i as int]));
        i += 1;
    }
    assert(a@.take(a@.len() as int) == a@);
    assert(b@.take(b@.len() as int) == b@);
    true
}

/// The texts held by a sequence of character vectors.
pub open spec fn views(v: Seq<Vec<char>>) -> Seq<Seq<char>> {
    Seq::new(v.len(), |i: int| v[i]@)
}

/// The text of an optional string.
pub open spec fn opt_view(s: Option<String>) -> Option<Seq<char>> {
    match s {
        Some(s) => Some(s@),
        None => None,
    }
}

/// `pat` occurs in `s` at index `i`.
pub open spec fn matches_at(s: Seq<char>, pat: Seq<char>, i: int) -> bool {
    0 <= i && i + pat.len() <= s.len() && s.subrange(i, i + pat.len()) =~= pat
}

/// The least index at or after `from` where `pat` occurs in `s`, or -1.
pub open spec fn first_match_from(s: Seq<char>, pat: Seq<char>, from: int) -> int
    decreases s.len() - from,
{
    if from < 0 || from + pat.len() > s.len() {
        -1
    } else if matches_at(s, pat, from) {
        from
    } else {
        first_match_from(s, pat, from + 1)
    }
}

/// The pieces of `s` between successive occurrences of `sep`, starting the
/// search at `from`. Occurrences are taken leftmost first and do not overlap.
pub open spec fn split_from(s: Seq<char>, sep: Seq<char>, from: int) -> Seq<Seq<char>>
    decreases s.len() - from,
{
    let i = first_match_from(s, sep, from);
    if from < 0 || from > s.len() {
        seq![]
    } else if sep.len() == 0 || i < from || i + sep.len() > s.len() {
        seq![s.subrange(from, s.len() as int)]
    } else {
        seq![s.subrange(from, i)] + split_from(s, sep, i + sep.len())
    }
}

/// The pieces of `s` between successive occurrences of the non-empty
/// separator `sep`; always at least one piece.
pub open spec fn split(s: Seq<char>, sep: Seq<char>) -> Seq<Seq<char>> {
    split_from(s, sep, 0)
}

/// Whether `pat` occurs in `s` at index `i`.
pub fn occurs_at(s: &Vec<char>, pat: &Vec<char>, i: usize) -> (r: bool)
    ensures
        r == matches_at(s@, pat@, i as int),
{
    if pat.len() > s.len() || i > s.len() - pat.len() {
        return false;
    }
    let mut k: usize = 0;
    while k < pat.len()
        invariant
            i + pat.len() <= s.len(),
            k <= pat.len(),
            forall|j: int| 0 <= j < k ==> s@[i + j] == pat@[j],
        decreases pat.len() - k,
    {
        if s[i + k] != pat[k] {
            assert(s@.subrange(i as int, i + pat.len())[k as int] == s@[i + k]);
            return false;
        }
        k += 1;
    }
    assert(s@.subrange(i as int, i + pat.len()) =~= pat@);
    true
}

/// The least index at or after `from` where `pat` occurs in `s`.
pub fn find_from(s: &Vec<char>, pat: &Vec<char>, from: usize) -> (r: Option<usize>)
    ensures
        match r {
            Some(i) => first_match_from(s@, pat@, from as int) == i,
            None => first_match_from(s@, pat@, from as int) == -1,
        },
{
    if pat.len() > s.len() {
        return None;
    }
    let last: usize = s.len() - pat.len();
    let mut i: usize = from;
    while i <= last
        invariant
            last + pat.len() == s.len(),
            from <= i,
            first_match_from(s@, pat@, from as int) == first_match_from(s@, pat@, i as int),
        decreases last + 1 - i,
    {
        if occurs_at(s, pat, i) {
            return Some(i);
        }
        if i == last {
            assert(first_match_from(s@, pat@, i + 1) == -1);
            return None;
        }
        i += 1;
    }
    None
}

/// Splits `s` at each occurrence of the non-empty separator `sep`.
pub fn split_text(s: &Vec<char>, sep: &Vec<char>) -> (r: Vec<Vec<char>>)
    requires
        sep.len() > 0,
    ensures
        views(r@) == split(s@, sep@),
        r.len() > 0,
{
    let mut r: Vec<Vec<char>> = Vec::new();
    let mut pos: usize = 0;
    loop
        invariant
            sep.len() > 0,
            pos <= s.len(),
            split(s@, sep@) == views(r@) + split_from(s@, sep@, pos as int),
        decreases s.len() - pos,
    {
        let ghost before = views(r@);
        match find_from(s, sep, pos) {
            Some(i) => {
                if i < pos || i > s.len() - sep.len() {
                    r.push(slice_of(s, pos, s.len()));
                    assert(views(r@) =~= before.push(s@.subrange(pos as int, s.len() as int)));
                    return r;
                }
                r.push(slice_of(s, pos, i));
                assert(views(r@) =~= before.push(s@.subrange(pos as int, i as int)));
                pos = i + sep.len();
            },
            None => {
                r.push(slice_of(s, pos, s.len()));
                assert(views(r@) =~= before.push(s@.subrange(pos as int, s.len() as int)));
                return r;
            },
        }
    }
}

/// A text without one trailing carriage return, if it has one.
pub open spec fn without_cr(s: Seq<char>) -> Seq<char> {
    if s.len() > 0 && s.last() == '\r' {
        s.drop_last()
    } else {
        s
    }
}

/// The lines of `s`. A line ends at a line feed, or at a carriage return
/// directly followed by one; the ending is not part of the line. What
/// follows the last line feed is a line only if it is not empty, and it
/// keeps a trailing carriage return.
pub open spec fn lines(s: Seq<char>) -> Seq<Seq<char>> {
    let parts = split(s, seq!['\n']);
    let n = parts.len() as int;
    if n > 0 && parts[n - 1].len() == 0 {
        Seq::new((n - 1) as nat, |i: int| without_cr(parts[i]))
    } else {
        Seq::new(
            n as nat,
            |i: int|
                if i < n - 1 {
                    without_cr(parts[i])
                } else {
                    parts[i]
                },
        )
    }
}

/// The lines of `s`.
pub fn lines_of(s: &Vec<char>) -> (r: Vec<Vec<char>>)
    ensures
        views(r@) == lines(s@),
{
    let mut sep: Vec<char> = Vec::new();
    sep.push('\n');
    assert(sep@ =~= seq!['\n']);
    let parts = split_text(s, &sep);
    let n: usize = parts.len();
    let mut r: Vec<Vec<char>> = Vec::new();
    let mut i: usize = 0;
    while i < n
        invariant
            n == parts.len(),
            i <= n,
            views(parts@) == split(s@, seq!['\n']),
            r.len() == (if i == n && parts[n - 1].len() == 0 {
                n - 1
            } else {
                i as int
            }),
            forall|j: int|
                0 <= j < r.len() ==> r[j]@ == (if j < n - 1 {
                    without_cr(parts[j]@)
                } else {
                    parts[j]@
                }),
        decreases n - i,
    {
        let part = &parts[i];
        let m: usize = part.len();
        if i + 1 < n {
            if m > 0 && part[m - 1] == '\r' {
                r.push(slice_of(part, 0, m - 1));
            } else {
                r.push(slice_of(part, 0, m));
                assert(part@.subrange(0, m as int) == part@);
            }
        } else if m > 0 {
            r.push(slice_of(part, 0, m));
            assert(part@.subrange(0, m as int) == part@);
        }
        i += 1;
    }
    assert(views(r@) =~= lines(s@));
    r
}

/// White space as Unicode defines it.
pub open spec fn is_space(c: char) -> bool {
    let n = c as u32;
    (0x09 <= n <= 0x0D) || n == 0x20 || n == 0x85 || n == 0xA0 || n == 0x1680 || (0x2000 <= n
        <= 0x200A) || n == 0x2028 || n == 0x2029 || n == 0x202F || n == 0x205F || n == 0x3000
}

/// Whether `c` is white space.
pub fn char_is_space(c: char) -> (r: bool)
    ensures
        r == is_space(c),
{
    let n: u32 = c as u32;
    (0x09 <= n && n <= 0x0D) || n == 0x20 || n == 0x85 || n == 0xA0 || n == 0x1680 || (0x2000 <= n
        && n <= 0x200A) || n == 0x2028 || n == 0x2029 || n == 0x202F || n == 0x205F || n == 0x3000
}

/// `s` without the white space it starts with.
pub open spec fn trim_start(s: Seq<char>) -> Seq<char>
    decreases s.len(),
{
    if s.len() > 0 && is_space(s[0]) {
        trim_start(s.drop_first())
    } else {
        s
    }
}

/// `s` without the white space it ends with.
pub open spec fn trim_end(s: Seq<char>) -> Seq<char>
    decreases s.len(),
{
    if s.len() > 0 && is_space(s.last()) {
        trim_end(s.drop_last())
    } else {
        s
    }
}

/// `s` without the white space at either end.
pub open spec fn trim(s: Seq<char>) -> Seq<char> {
    trim_end(trim_start(s))
}

/// `s` without the white space at either end.
pub fn trimmed(s: &Vec<char>) -> (r: Vec<char>)
    ensures
        r@ == trim(s@),
{
    let n: usize = s.len();
    let mut a: usize = 0;
    assert(s@.subrange(0, n as int) == s@);
    while a < n && char_is_space(s[a])
        invariant
            n == s.len(),
            a <= n,
            trim_start(s@) == trim_start(s@.subrange(a as int, n as int)),
        decreases n - a,
    {
        assert(s@.subrange(a as int, n as int).drop_first() == s@.subrange(a + 1, n as int));
        a += 1;
    }
    assert(trim_start(s@) == s@.subrange(a as int, n as int));
    let mut b: usize = n;
    while b > a && char_is_space(s[b - 1])
        invariant
            n == s.len(),
            a <= b <= n,
            trim(s@) == trim_end(s@.subrange(a as int, b as int)),
        decreases b - a,
    {
        assert(s@.subrange(a as int, b as int).drop_last() == s@.subrange(a as int, b - 1));
        b -= 1;
    }
    slice_of(s, a, b)
}

/// An ASCII decimal digit.
pub open spec fn is_digit(c: char) -> bool {
    '0' <= c <= '9'
}

/// The value of a decimal digit; 0 for any other character.
pub open spec fn digit_value(c: char) -> nat {
    if is_digit(c) {
        (c as u32 - 48) as nat
    } else {
        0
    }
}

/// Every character of `s` is a decimal digit.
pub open spec fn all_digits(s: Seq<char>) -> bool {
    forall|i: int| 0 <= i < s.len() ==> is_digit(#[trigger] s[i])
}

/// The number that the digits of `s` write in base ten.
pub open spec fn digits_value(s: Seq<char>) -> nat
    decreases s.len(),
{
    if s.len() == 0 {
        0
    } else {
        digits_value(s.drop_last()) * 10 + digit_value(s.last())
    }
}

/// The number written by `s`: one or more digits, nothing else.
pub open spec fn magnitude(s: Seq<char>) -> Option<nat> {
    if s.len() > 0 && all_digits(s) {
        Some(digits_value(s))
    } else {
        None
    }
}

/// The number written by `s`: as `magnitude`, after an optional plus sign.
pub open spec fn unsigned_value(s: Seq<char>) -> Option<nat> {
    if s.len() > 0 && s[0] == '+' {
        magnitude(s.drop_first())
    } else {
        magnitude(s)
    }
}

/// The number written by `s`: as `magnitude`, after an optional sign.
pub open spec fn signed_value(s: Seq<char>) -> Option<int> {
    if s.len() > 0 && s[0] == '-' {
        match magnitude(s.drop_first()) {
            Some(n) => Some(-(n as int)),
            None => None,
        }
    } else {
        match unsigned_value(s) {
            Some(n) => Some(n as int),
            None => None,
        }
    }
}

/// What `s` reads as a `usize`: its unsigned value where that fits.
pub open spec fn as_usize(s: Seq<char>) -> Option<usize> {
    match unsigned_value(s) {
        Some(n) => if n <= usize::MAX {
            Some(n as usize)
        } else {
            None
        },
        None => None,
    }
}

/// What `s` reads as an `isize`: its signed value where that fits.
pub open spec fn as_isize(s: Seq<char>) -> Option<isize> {
    match signed_value(s) {
        Some(v) => if isize::MIN <= v <= isize::MAX {
            Some(v as isize)
        } else {
            None
        },
        None => None,
    }
}

/// A prefix of a text writes no larger a number than the text.
pub proof fn digits_value_grows(s: Seq<char>, k: int)
    requires
        0 <= k <= s.len(),
    ensures
        digits_value(s.take(k)) <= digits_value(s),
    decreases s.len(),
{
    if k == s.len() {
        assert(s.take(k) == s);
    } else {
        digits_value_grows(s.drop_last(), k);
        assert(s.drop_last().take(k) == s.take(k));
    }
}

/// Reads the digits of `s` from index `from` on.
pub fn read_magnitude(s: &Vec<char>, from: usize) -> (r: Option<usize>)
    requires
        from <= s.len(),
    ensures
        r == (match magnitude(s@.subrange(from as int, s.len() as int)) {
            Some(n) => if n <= usize::MAX {
                Some(n as usize)
            } else {
                None
            },
            None => None,
        }),
{
    let n: usize = s.len();
    let ghost body = s@.subrange(from as int, n as int);
    if from == n {
        return None;
    }
    let mut acc: usize = 0;
    let mut i: usize = from;
    while i < n
        invariant
            n == s.len(),
            from <= i <= n,
            body == s@.subrange(from as int, n as int),
            all_digits(body.take(i - from)),
            acc == digits_value(body.take(i - from)),
        decreases n - i,
    {
        let c: char = s[i];
        assert(body[i - from] == c);
        if !(c >= '0' && c <= '9') {
            return None;
        }
        let d: usize = (c as u32 - 48) as usize;
        assert(body.take(i - from + 1).drop_last() == body.take(i - from));
        assert(digits_value(body.take(i - from + 1)) == acc * 10 + d);
        proof {
            digits_value_grows(body, i - from + 1);
        }
        let shifted = match acc.checked_mul(10) {
            Some(v) => v,
            None => {
                return None;
            },
        };
        acc = match shifted.checked_add(d) {
            Some(v) => v,
            None => {
                return None;
            },
        };
        i += 1;
    }
    assert(body.take(n - from) == body);
    Some(acc)
}

/// Reads `s` as a `usize`, as `str::parse` does.
pub fn read_usize(s: &Vec<char>) -> (r: Option<usize>)
    ensures
        r == as_usize(s@),
{
    if s.len() > 0 && s[0] == '+' {
        assert(s@.drop_first() == s@.subrange(1, s.len() as int));
        read_magnitude(s, 1)
    } else {
        assert(s@ == s@.subrange(0, s.len() as int));
        read_magnitude(s, 0)
    }
}

/// Reads `s` as an `isize`, as `str::parse` does.
pub fn read_isize(s: &Vec<char>) -> (r: Option<isize>)
    ensures
        r == as_isize(s@),
{
    if s.len() > 0 && s[0] == '-' {
        assert(s@.drop_first() == s@.subrange(1, s.len() as int));
        match read_magnitude(s, 1) {
            Some(m) => {
                if m <= isize::MAX as usize {
                    Some(-(m as isize))
                } else if m == isize::MAX as usize + 1 {
                    Some(isize::MIN)
                } else {
                    None
                }
            },
            None => None,
        }
    } else {
        match read_usize(s) {
            Some(m) => {
                if m <= isize::MAX as usize {
                    Some(m as isize)
                } else {
                    None
                }
            },
            None => None,
        }
    }
}

/// The character that writes a digit below ten.
pub open spec fn digit_char(d: nat) -> char {
    (48 + d) as char
}

/// The decimal digits of `n`, without leading zeros.
pub open spec fn decimal(n: nat) -> Seq<char>
    decreases n,
{
    if n < 10 {
        seq![digit_char(n)]
    } else {
        decimal(n / 10).push(digit_char(n % 10))
    }
}

/// The decimal form of `v`, with a minus sign where it is negative.
pub open spec fn signed_decimal(v: int) -> Seq<char> {
    if v < 0 {
        seq!['-'] + decimal((-v) as nat)
    } else {
        decimal(v as nat)
    }
}

/// Appends the decimal digits of `n` to `out`.
pub fn push_decimal(out: &mut Vec<char>, n: usize)
    ensures
        final(out)@ == old(out)@ + decimal(n as nat),
{
    let mut low: Vec<char> = Vec::new();
    let mut m: usize = n;
    loop
        invariant_except_break
            decimal(n as nat) == decimal(m as nat) + low@.reverse(),
        ensures
            decimal(n as nat) == low@.reverse(),
        decreases m,
    {
        let d: u8 = (m % 10) as u8;
        let c: char = (48 + d) as char;
        assert(c == digit_char((m % 10) as nat));
        let ghost before = low@;
        low.push(c);
        assert(low@.reverse() =~= seq![c] + before.reverse());
        if m < 10 {
            assert(decimal(m as nat) =~= seq![c]);
            assert(decimal(n as nat) =~= low@.reverse());
            break;
        }
        assert(decimal(m as nat) == decimal((m / 10) as nat).push(c));
        assert(decimal((m / 10) as nat).push(c) + before.reverse() =~= decimal((m / 10) as nat)
            + low@.reverse());
        m = m / 10;
    }
    let mut i: usize = low.len();
    while i > 0
        invariant
            i <= low.len(),
            out@ == old(out)@ + low@.reverse().take(low.len() - i),
        decreases i,
    {
        i -= 1;
        out.push(low[i]);
        assert(low@.reverse().take(low.len() - i) =~= low@.reverse().take(low.len() - i - 1).push(
            low[i as int],
        ));
    }
    assert(low@.reverse().take(low.len() as int) =~= low@.reverse());
}

/// Appends the decimal form of `v` to `out`.
pub fn push_signed_decimal(out: &mut Vec<char>, v: isize)
    ensures
        final(out)@ == old(out)@ + signed_decimal(v as int),
{
    if v < 0 {
        out.push('-');
        let m: usize = if v == isize::MIN {
            isize::MAX as usize + 1
        } else {
            (-v) as usize
        };
        push_decimal(out, m);
        assert(out@ =~= old(out)@ + (seq!['-'] + decimal((-v) as nat)));
    } else {
        push_decimal(out, v as usize);
    }
}

/// The decimal form of `n`.
pub fn usize_string(n: usize) -> (s: String)
    ensures
        s@ == decimal(n as nat),
{
    let mut out: Vec<char> = Vec::new();
    push_decimal(&mut out, n);
    assert(out@ =~= decimal(n as nat));
    string_of(&out)
}

/// The decimal form of `v`.
pub fn isize_string(v: isize) -> (s: String)
    ensures
        s@ == signed_decimal(v as int),
{
    let mut out: Vec<char> = Vec::new();
    push_signed_decimal(&mut out, v);
    assert(out@ =~= signed_decimal(v as int));
    string_of(&out)
}

/// Two numbers in decimal with a comma between them.
pub open spec fn pair_text(x: nat, y: nat) -> Seq<char> {
    decimal(x) + seq![','] + decimal(y)
}

/// Two numbers in decimal with a comma between them.
pub fn pair_string(x: usize, y: usize) -> (s: String)
    ensures
        s@ == pair_text(x as nat, y as nat),
{
    let mut out: Vec<char> = Vec::new();
    push_decimal(&mut out, x);
    out.push(',');
    push_decimal(&mut out, y);
    assert(out@ =~= pair_text(x as nat, y as nat));
    string_of(&out)
}

} // verus!
