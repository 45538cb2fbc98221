//! Character-level text operations with the meaning of the corresponding
//! `str` methods, stated over `Seq<char>`.
use vstd::prelude::*;

verus! {

/// Unicode `White_Space`, the set that `char::is_whitespace` and `str::trim` use.
pub open spec fn is_white_space(c: char) -> bool {
    let u = c as u32;
    ||| 0x09 <= u <= 0x0d
    ||| u == 0x20
    ||| u == 0x85
    ||| u == 0xa0
    ||| u == 0x1680
    ||| 0x2000 <= u <= 0x200a
    ||| u == 0x2028
    ||| u == 0x2029
    ||| u == 0x202f
    ||| u == 0x205f
    ||| u == 0x3000
}

pub open spec fn trim_start(s: Seq<char>) -> Seq<char>
    decreases s.len(),
{
    if s.len() > 0 && is_white_space(s[0]) {
        trim_start(s.drop_first())
    } else {
        s
    }
}

pub open spec fn trim_end(s: Seq<char>) -> Seq<char>
    decreases s.len(),
{
    if s.len() > 0 && is_white_space(s.last()) {
        trim_end(s.drop_last())
    } else {
        s
    }
}

/// `str::trim`: leading and trailing white space removed.
pub open spec fn trim(s: Seq<char>) -> Seq<char> {
    trim_end(trim_start(s))
}

pub open spec fn starts_with(s: Seq<char>, p: Seq<char>) -> bool {
    p.len() <= s.len() && s.subrange(0, p.len() as int) == p
}

pub open spec fn ends_with(s: Seq<char>, p: Seq<char>) -> bool {
    p.len() <= s.len() && s.subrange(s.len() - p.len(), s.len() as int) == p
}

pub open spec fn occurs_at(s: Seq<char>, p: Seq<char>, i: int) -> bool {
    0 <= i && i + p.len() <= s.len() && s.subrange(i, i + p.len()) == p
}

/// First occurrence of `p` in `s` at an index not below `i`.
pub open spec fn find_from(s: Seq<char>, p: Seq<char>, i: int) -> Option<int>
    decreases s.len() + 1 - i,
{
    if i < 0 || i + p.len() > s.len() {
        None
    } else if s.subrange(i, i + p.len()) == p {
        Some(i)
    } else {
        find_from(s, p, i + 1)
    }
}

/// `str::find` with a pattern, as an index into the characters.
pub open spec fn find(s: Seq<char>, p: Seq<char>) -> Option<int> {
    find_from(s, p, 0)
}

/// Last occurrence of `c` among the first `i` characters.
pub open spec fn rfind_before(s: Seq<char>, c: char, i: int) -> Option<int>
    decreases i,
{
    if i <= 0 {
        None
    } else if s[i - 1] == c {
        Some(i - 1)
    } else {
        rfind_before(s, c, i - 1)
    }
}

/// `str::rfind` with a character.
pub open spec fn rfind_char(s: Seq<char>, c: char) -> Option<int> {
    rfind_before(s, c, s.len() as int)
}

/// `str::split` with a character: the pieces between separators.
pub open spec fn split_char(s: Seq<char>, c: char) -> Seq<Seq<char>>
    decreases s.len(),
{
    match find(s, seq![c]) {
        Some(k) => if 0 <= k < s.len() {
            seq![s.take(k)] + split_char(s.skip(k + 1), c)
        } else {
            seq![s]
        },
        None => seq![s],
    }
}

/// `str::replacen(from, to, 1)`.
pub open spec fn replace_first(s: Seq<char>, from: Seq<char>, to: Seq<char>) -> Seq<char> {
    match find(s, from) {
        Some(k) => s.take(k) + to + s.skip(k + from.len()),
        None => s,
    }
}

pub open spec fn is_digit(c: char) -> bool {
    48 <= (c as u32) <= 57
}

pub open spec fn digit_value(c: char) -> nat {
    (c as u32 - 48) as nat
}

pub open spec fn all_digits(s: Seq<char>) -> bool {
    forall|i: int| 0 <= i < s.len() ==> is_digit(#[trigger] s[i])
}

/// The number that a string of decimal digits denotes.
pub open spec fn decimal_value(s: Seq<char>) -> nat
    decreases s.len(),
{
    if s.len() == 0 {
        0
    } else {
        decimal_value(s.drop_last()) * 10 + digit_value(s.last())
    }
}

/// The digits of an unsigned number, past an optional `+`.
pub open spec fn strip_plus(s: Seq<char>) -> Seq<char> {
    if s.len() > 0 && s[0] == '+' {
        s.drop_first()
    } else {
        s
    }
}

/// `u64::from_str`: an optional `+`, then at least one decimal digit, no overflow.
pub open spec fn parse_u64(s: Seq<char>) -> Option<u64> {
    let digits = strip_plus(s);
    if digits.len() == 0 || !all_digits(digits) || decimal_value(digits) > u64::MAX {
        None
    } else {
        Some(decimal_value(digits) as u64)
    }
}

pub open spec fn digit_char(d: nat) -> char {
    ((d % 10) + 48) as char
}

/// The decimal representation of `n`, as `format!("{n}")` writes it.
pub open spec fn decimal(n: nat) -> Seq<char>
    decreases n,
{
    if n < 10 {
        seq![digit_char(n)]
    } else {
        decimal(n / 10).push(digit_char(n % 10))
    }
}

/// Index just past the line that starts at `i`: past the next `'\n'`, or the end.
pub open spec fn line_end(s: Seq<char>, i: int) -> int
    decreases s.len() - i,
{
    if i >= s.len() {
        s.len() as int
    } else if s[i] == '\n' {
        i + 1
    } else {
        line_end(s, i + 1)
    }
}

pub proof fn lemma_line_end_bounds(s: Seq<char>, i: int)
    requires
        0 <= i < s.len(),
    ensures
        i < line_end(s, i) <= s.len(),
    decreases s.len() - i,
{
    if s[i] == '\n' {
    } else if i + 1 < s.len() {
        lemma_line_end_bounds(s, i + 1);
    } else {
        assert(line_end(s, i + 1) == s.len());
    }
}

pub proof fn lemma_trim_start_skip(s: Seq<char>, a: int)
    requires
        0 <= a <= s.len(),
        forall|j: int| 0 <= j < a ==> is_white_space(#[trigger] s[j]),
        a == s.len() || !is_white_space(s[a]),
    ensures
        trim_start(s) == s.skip(a),
    decreases a,
{
    if a == 0 {
        assert(s.skip(0) =~= s);
    } else {
        let t = s.drop_first();
        assert forall|j: int| 0 <= j < a - 1 implies is_white_space(#[trigger] t[j]) by {
            assert(t[j] == s[j + 1]);
        }
        if a - 1 < t.len() {
            assert(t[a - 1] == s[a]);
        }
        lemma_trim_start_skip(t, a - 1);
        assert(t.skip(a - 1) =~= s.skip(a));
    }
}

pub proof fn lemma_trim_end_take(s: Seq<char>, b: int)
    requires
        0 <= b <= s.len(),
        forall|j: int| b <= j < s.len() ==> is_white_space(#[trigger] s[j]),
        b == 0 || !is_white_space(s[b - 1]),
    ensures
        trim_end(s) == s.take(b),
    decreases s.len() - b,
{
    if b == s.len() {
        assert(s.take(b) =~= s);
    } else {
        let t = s.drop_last();
        assert forall|j: int| b <= j < t.len() implies is_white_space(#[trigger] t[j]) by {
            assert(t[j] == s[j]);
        }
        if b > 0 {
            assert(t[b - 1] == s[b - 1]);
        }
        lemma_trim_end_take(t, b);
        assert(t.take(b) =~= s.take(b));
    }
}

pub proof fn lemma_decimal_value_prefix_monotone(s: Seq<char>, i: int)
    requires
        0 <= i <= s.len(),
    ensures
        decimal_value(s.take(i)) <= decimal_value(s),
    decreases s.len() - i,
{
    if i < s.len() {
        lemma_decimal_value_prefix_monotone(s, i + 1);
        assert(s.take(i + 1).drop_last() =~= s.take(i));
    } else {
        assert(s.take(i) =~= s);
    }
}

/// Whether `c` is white space, as `char::is_whitespace` decides.
pub fn is_white_space_char(c: char) -> (b: bool)
    ensures
        b == is_white_space(c),
{
    let u = c as u32;
    (0x09 <= u && u <= 0x0d) || u == 0x20 || u == 0x85 || u == 0xa0 || u == 0x1680 || (0x2000
        <= u && u <= 0x200a) || u == 0x2028 || u == 0x2029 || u == 0x202f || u == 0x205f || u
        == 0x3000
}

/// The characters of a string slice.
pub fn chars_of(s: &str) -> (v: Vec<char>)
    ensures
        v@ == s@,
{
    broadcast use vstd::string::group_string_axioms;

    let mut v: Vec<char> = Vec::new();
    for c in it: s.chars()
        invariant
            v@ == it.seq().take(it.index() as int),
    {
        v.push(c);
    }
    assert(v@ =~= s@);
    v
}

/// The string made of the given characters, through `String::from_iter`.
#[verifier::external_body]
pub(crate) fn string_from_chars(chars: Vec<char>) -> (s: String)
    ensures
        s@ == chars@,
{
    String::from_iter(chars)
}

/// A copy of `s[a..b]`.
pub fn sub_chars(s: &[char], a: usize, b: usize) -> (r: Vec<char>)
    requires
        a <= b <= s.len(),
    ensures
        r@ == s@.subrange(a as int, b as int),
{
    let mut r: Vec<char> = Vec::new();
    let mut i = a;
    while i < b
        invariant
            a <= i <= b <= s.len(),
            r@ == s@.subrange(a as int, i as int),
        decreases b - i,
    {
        r.push(s[i]);
        i += 1;
        assert(r@ =~= s@.subrange(a as int, i as int));
    }
    r
}

/// Appends `t` to `out`.
pub fn append_chars(out: &mut Vec<char>, t: &[char])
    ensures
        final(out)@ == old(out)@ + t@,
{
    let mut i: usize = 0;
    while i < t.len()
        invariant
            i <= t.len(),
            out@ == old(out)@ + t@.take(i as int),
        decreases t.len() - i,
    {
        out.push(t[i]);
        i += 1;
        assert(out@ =~= old(out)@ + t@.take(i as int));
    }
    assert(t@.take(t.len() as int) =~= t@);
}

/// `str::trim` over characters.
pub fn trim_chars(s: &[char]) -> (r: Vec<char>)
    ensures
        r@ == trim(s@),
{
    let mut a: usize = 0;
    while a < s.len() && is_white_space_char(s[a])
        invariant
            a <= s.len(),
            forall|j: int| 0 <= j < a ==> is_white_space(#[trigger] s@[j]),
        decreases s.len() - a,
    {
        a += 1;
    }
    proof {
        lemma_trim_start_skip(s@, a as int);
    }
    let mut b: usize = s.len();
    while b > a && is_white_space_char(s[b - 1])
        invariant
            a <= b <= s.len(),
            forall|j: int| b <= j < s.len() ==> is_white_space(#[trigger] s@[j]),
        decreases b - a,
    {
        b -= 1;
    }
    proof {
        let t = s@.skip(a as int);
        let k = b - a;
        assert forall|j: int| k <= j < t.len() implies is_white_space(#[trigger] t[j]) by {
            assert(t[j] == s@[j + a]);
        }
        if k > 0 {
            assert(t[k - 1] == s@[b - 1]);
        }
        lemma_trim_end_take(t, k as int);
        assert(t.take(k as int) =~= s@.subrange(a as int, b as int));
    }
    sub_chars(s, a, b)
}

/// Whether `p` occurs in `s` at index `i`.
pub fn occurs_at_chars(s: &[char], p: &[char], i: usize) -> (b: bool)
    ensures
        b == occurs_at(s@, p@, i as int),
{
    if p.len() > s.len() || i > s.len() - p.len() {
        return false;
    }
    let mut j: usize = 0;
    while j < p.len()
        invariant
            i + p.len() <= s.len(),
            j <= p.len(),
            forall|k: int| 0 <= k < j ==> s@[i + k] == p@[k],
        decreases p.len() - j,
    {
        if s[i + j] != p[j] {
            assert(s@.subrange(i as int, i + p.len())[j as int] != p@[j as int]);
            return false;
        }
        j += 1;
    }
    assert(s@.subrange(i as int, i + p.len()) =~= p@);
    true
}

/// `str::starts_with` over characters.
pub fn starts_with_chars(s: &[char], p: &[char]) -> (b: bool)
    ensures
        b == starts_with(s@, p@),
{
    occurs_at_chars(s, p, 0)
}

/// `str::ends_with` over characters.
pub fn ends_with_chars(s: &[char], p: &[char]) -> (b: bool)
    ensures
        b == ends_with(s@, p@),
{
    if p.len() > s.len() {
        return false;
    }
    occurs_at_chars(s, p, s.len() - p.len())
}

/// `str::find` with a pattern over characters.
pub fn find_chars(s: &[char], p: &[char]) -> (r: Option<usize>)
    ensures
        match r {
            Some(i) => find(s@, p@) == Some(i as int),
            None => find(s@, p@) is None,
        },
{
    if p.len() > s.len() {
        return None;
    }
    let last = s.len() - p.len();
    let mut i: usize = 0;
    loop
        invariant
            last + p.len() == s.len(),
            i <= last,
            find(s@, p@) == find_from(s@, p@, i as int),
        decreases last - i,
    {
        if occurs_at_chars(s, p, i) {
            return Some(i);
        }
        if i == last {
            assert(find_from(s@, p@, i + 1) is None);
            return None;
        }
        i += 1;
    }
}

/// `str::rfind` with a character.
pub fn rfind_char_chars(s: &[char], c: char) -> (r: Option<usize>)
    ensures
        match r {
            Some(i) => rfind_char(s@, c) == Some(i as int),
            None => rfind_char(s@, c) is None,
        },
{
    let mut i: usize = s.len();
    while i > 0
        invariant
            i <= s.len(),
            rfind_char(s@, c) == rfind_before(s@, c, i as int),
        decreases i,
    {
        if s[i - 1] == c {
            return Some(i - 1);
        }
        i -= 1;
    }
    None
}

/// `str::split` with a character, each piece copied.
pub fn split_char_chars(s: &[char], c: char) -> (r: Vec<Vec<char>>)
    ensures
        r@.len() == split_char(s@, c).len(),
        forall|i: int| 0 <= i < r@.len() ==> #[trigger] r@[i]@ == split_char(s@, c)[i],
{
    let sep: Vec<char> = vec![c];
    assert(sep@ =~= seq![c]);
    let mut r: Vec<Vec<char>> = Vec::new();
    let mut start: usize = 0;
    let ghost mut done: Seq<Seq<char>> = Seq::empty();
    assert(s@.skip(0) =~= s@);
    assert(done + split_char(s@, c) =~= split_char(s@, c));
    loop
        invariant
            start <= s.len(),
            sep@ == seq![c],
            r@.len() == done.len(),
            forall|i: int| 0 <= i < r@.len() ==> #[trigger] r@[i]@ == done[i],
            split_char(s@, c) == done + split_char(s@.skip(start as int), c),
        decreases s.len() - start,
    {
        let rest = sub_chars(s, start, s.len());
        assert(rest@ =~= s@.skip(start as int));
        match find_chars(&rest, &sep) {
            Some(k) => {
                proof {
                    lemma_find_occurs(rest@, sep@);
                    assert(k < rest@.len());
                }
                let piece = sub_chars(&rest, 0, k);
                assert(piece@ =~= rest@.take(k as int));
                proof {
                    assert(rest@.skip(k + 1) =~= s@.skip(start + k + 1));
                    assert(done.push(piece@) + split_char(s@.skip(start + k + 1), c) =~= done
                        + split_char(rest@, c));
                    done = done.push(piece@);
                }
                r.push(piece);
                start = start + k + 1;
            },
            None => {
                proof {
                    done = done.push(rest@);
                }
                r.push(rest);
                assert(split_char(s@, c) =~= done);
                return r;
            },
        }
    }
}

pub proof fn lemma_find_in_bounds(s: Seq<char>, p: Seq<char>, i: int)
    requires
        find_from(s, p, i) is Some,
    ensures
        i <= find_from(s, p, i)->0,
        occurs_at(s, p, find_from(s, p, i)->0),
    decreases s.len() + 1 - i,
{
    if i < 0 || i + p.len() > s.len() {
    } else if s.subrange(i, i + p.len()) == p {
    } else {
        lemma_find_in_bounds(s, p, i + 1);
    }
}

pub proof fn lemma_find_occurs(s: Seq<char>, p: Seq<char>)
    requires
        find(s, p) is Some,
    ensures
        occurs_at(s, p, find(s, p)->0),
{
    lemma_find_in_bounds(s, p, 0);
}

/// `u64::from_str` over characters.
pub fn parse_u64_chars(s: &[char]) -> (r: Option<u64>)
    ensures
        r == parse_u64(s@),
{
    let start: usize = if s.len() > 0 && s[0] == '+' {
        1
    } else {
        0
    };
    let ghost digits = strip_plus(s@);
    assert(digits =~= s@.skip(start as int));
    if start >= s.len() {
        return None;
    }
    let mut i = start;
    while i < s.len()
        invariant
            start <= i <= s.len(),
            digits == s@.skip(start as int),
            digits == strip_plus(s@),
            forall|j: int| start <= j < i ==> is_digit(#[trigger] s@[j]),
        decreases s.len() - i,
    {
        let u = s[i] as u32;
        if !(48 <= u && u <= 57) {
            assert(digits[i - start] == s@[i as int]);
            assert(!is_digit(digits[i - start]));
            assert(!all_digits(digits));
            return None;
        }
        i += 1;
    }
    assert forall|j: int| 0 <= j < digits.len() implies is_digit(#[trigger] digits[j]) by {
        assert(digits[j] == s@[j + start]);
    }
    let mut acc: u64 = 0;
    let mut i = start;
    while i < s.len()
        invariant
            start <= i <= s.len(),
            digits == s@.skip(start as int),
            digits == strip_plus(s@),
            all_digits(digits),
            acc as nat == decimal_value(digits.take(i - start)),
        decreases s.len() - i,
    {
        assert(digits[i - start] == s@[i as int]);
        assert(is_digit(digits[i - start]));
        let d = (s[i] as u32 - 48) as u64;
        assert(digits.take(i - start + 1).drop_last() =~= digits.take(i - start));
        assert(decimal_value(digits.take(i - start + 1)) == acc * 10 + d);
        if acc > (u64::MAX - d) / 10 {
            proof {
                lemma_decimal_value_prefix_monotone(digits, i - start + 1);
                assert(acc * 10 + d > u64::MAX) by (nonlinear_arith)
                    requires
                        acc > (u64::MAX - d) / 10,
                        d <= 9,
                ;
                assert(decimal_value(digits) > u64::MAX);
            }
            return None;
        }
        assert(acc * 10 + d <= u64::MAX) by (nonlinear_arith)
            requires
                acc <= (u64::MAX - d) / 10,
                d <= 9,
        ;
        acc = acc * 10 + d;
        i += 1;
    }
    assert(digits.take(s.len() - start) =~= digits);
    Some(acc)
}

/// Appends the decimal representation of `n` to `out`.
pub fn push_decimal(out: &mut Vec<char>, n: u64)
    ensures
        final(out)@ == old(out)@ + decimal(n as nat),
    decreases n,
{
    if n >= 10 {
        push_decimal(out, n / 10);
    }
    let c = char_from_digit(n % 10);
    out.push(c);
    assert(out@ =~= old(out)@ + decimal(n as nat));
}

fn char_from_digit(d: u64) -> (c: char)
    requires
        d < 10,
    ensures
        c == digit_char(d as nat),
{
    match d {
        0 => '0',
        1 => '1',
        2 => '2',
        3 => '3',
        4 => '4',
        5 => '5',
        6 => '6',
        7 => '7',
        8 => '8',
        _ => '9',
    }
}

/// Index just past the line that starts at `i`.
pub fn line_end_chars(s: &[char], i: usize) -> (e: usize)
    requires
        i < s.len(),
    ensures
        e as int == line_end(s@, i as int),
        i < e <= s.len(),
{
    proof {
        lemma_line_end_bounds(s@, i as int);
    }
    let mut k = i;
    while k < s.len() && s[k] != '\n'
        invariant
            i <= k <= s.len(),
            line_end(s@, i as int) == line_end(s@, k as int),
        decreases s.len() - k,
    {
        k += 1;
    }
    if k < s.len() {
        k + 1
    } else {
        k
    }
}

/// Whether two character sequences are equal.
pub fn chars_eq(a: &[char], b: &[char]) -> (r: bool)
    ensures
        r == (a@ == b@),
{
    if a.len() != b.len() {
        return false;
    }
    let r = occurs_at_chars(a, b, 0);
    assert(a@.subrange(0, b@.len() as int) =~= a@);
    r
}

/// Line breaks are found past a prefix exactly as in the rest of the text.
pub proof fn lemma_line_end_shift(x: Seq<char>, y: Seq<char>, q: int)
    requires
        0 <= q,
    ensures
        line_end(x + y, x.len() + q) == x.len() + line_end(y, q),
    decreases y.len() - q,
{
    if q < y.len() {
        assert((x + y)[x.len() + q] == y[q]);
        if y[q] != '\n' {
            lemma_line_end_shift(x, y, q + 1);
        }
    }
}

/// In a text that ends with a line break, a line ends before anything appended.
pub proof fn lemma_line_end_prefix(x: Seq<char>, y: Seq<char>, p: int)
    requires
        0 <= p < x.len(),
        x.last() == '\n',
    ensures
        line_end(x + y, p) == line_end(x, p),
        line_end(x, p) <= x.len(),
    decreases x.len() - p,
{
    assert((x + y)[p] == x[p]);
    if x[p] != '\n' {
        lemma_line_end_prefix(x, y, p + 1);
    }
}

/// A line holds no line break but its last character, which is one unless
/// the line ends the text.
pub proof fn lemma_line_end_breaks(s: Seq<char>, p: int)
    requires
        0 <= p < s.len(),
    ensures
        forall|j: int| p <= j < line_end(s, p) - 1 ==> s[j] != '\n',
        line_end(s, p) < s.len() ==> s[line_end(s, p) - 1] == '\n',
    decreases s.len() - p,
{
    if s[p] != '\n' {
        if p + 1 < s.len() {
            lemma_line_end_breaks(s, p + 1);
        } else {
            assert(line_end(s, p + 1) == s.len());
        }
        assert(line_end(s, p) == line_end(s, p + 1));
    }
}

/// A text with no line break before its last character is a single line.
pub proof fn lemma_line_end_single(s: Seq<char>, p: int)
    requires
        0 <= p < s.len(),
        forall|j: int| 0 <= j < s.len() - 1 ==> s[j] != '\n',
    ensures
        line_end(s, p) == s.len(),
    decreases s.len() - p,
{
    if p + 1 < s.len() {
        assert(s[p] != '\n');
        lemma_line_end_single(s, p + 1);
    } else if s[p] != '\n' {
        assert(line_end(s, p + 1) == s.len());
    }
}

pub proof fn lemma_trim_start_concat(x: Seq<char>, y: Seq<char>)
    requires
        y.len() > 0,
        !is_white_space(y[0]),
    ensures
        trim_start(x + y) == trim_start(x) + y,
    decreases x.len(),
{
    if x.len() == 0 {
        assert(x + y =~= y);
        assert(trim_start(x) + y =~= y);
    } else if is_white_space(x[0]) {
        assert((x + y).drop_first() =~= x.drop_first() + y);
        lemma_trim_start_concat(x.drop_first(), y);
    } else {
        assert((x + y)[0] == x[0]);
    }
}

/// `trim_start` removes a prefix.
pub proof fn lemma_trim_start_suffix(y: Seq<char>)
    ensures
        trim_start(y).len() <= y.len(),
        trim_start(y) == y.skip(y.len() - trim_start(y).len()),
    decreases y.len(),
{
    if y.len() > 0 && is_white_space(y[0]) {
        lemma_trim_start_suffix(y.drop_first());
        assert(y.drop_first().skip(y.drop_first().len() - trim_start(y).len()) =~= y.skip(
            y.len() - trim_start(y).len(),
        ));
    } else {
        assert(y.skip(0) =~= y);
    }
}

/// The decimal representation is a nonempty string of digits.
pub proof fn lemma_decimal_digits(n: nat)
    ensures
        decimal(n).len() > 0,
        forall|k: int| 0 <= k < decimal(n).len() ==> is_digit(#[trigger] decimal(n)[k]),
    decreases n,
{
    if n >= 10 {
        lemma_decimal_digits(n / 10);
    }
}

/// The first occurrence at or after `i` exists once some occurrence does.
pub proof fn lemma_find_from_some(s: Seq<char>, p: Seq<char>, i: int, j: int)
    requires
        0 <= i <= j,
        occurs_at(s, p, j),
    ensures
        find_from(s, p, i) is Some,
    decreases j - i,
{
    if s.subrange(i, i + p.len()) != p {
        lemma_find_from_some(s, p, i + 1, j);
    }
}

/// The last occurrence of `c` before `i` is at or after any occurrence.
pub proof fn lemma_rfind_some(s: Seq<char>, c: char, i: int, j: int)
    requires
        0 <= j < i <= s.len(),
        s[j] == c,
    ensures
        rfind_before(s, c, i) is Some,
        j <= rfind_before(s, c, i)->0 < i,
        s[rfind_before(s, c, i)->0] == c,
    decreases i,
{
    if s[i - 1] != c {
        lemma_rfind_some(s, c, i - 1, j);
    }
}

/// Searching past a prefix is searching the rest.
pub proof fn lemma_find_from_shift(x: Seq<char>, y: Seq<char>, m: Seq<char>, j: int)
    requires
        0 <= j,
    ensures
        find_from(x + y, m, x.len() + j) == match find_from(y, m, j) {
            Some(k) => Some(x.len() + k),
            None => None::<int>,
        },
    decreases y.len() + 1 - j,
{
    if j + m.len() <= y.len() {
        assert((x + y).subrange(x.len() + j, x.len() + j + m.len()) =~= y.subrange(
            j,
            j + m.len(),
        ));
        lemma_find_from_shift(x, y, m, j + 1);
    }
}

/// A pattern without line breaks is found in a text that ends a line before
/// anything appended to it, and only then in what is appended.
pub proof fn lemma_find_from_concat(x: Seq<char>, y: Seq<char>, m: Seq<char>, i: int)
    requires
        0 <= i <= x.len(),
        x.len() == 0 || x.last() == '\n',
        m.len() > 0,
        !m.contains('\n'),
    ensures
        find_from(x + y, m, i) == match find_from(x, m, i) {
            Some(k) => Some(k),
            None => match find_from(y, m, 0) {
                Some(k) => Some(x.len() + k),
                None => None::<int>,
            },
        },
    decreases x.len() - i,
{
    if i == x.len() {
        lemma_find_from_shift(x, y, m, 0);
    } else {
        if i + m.len() <= x.len() {
            assert((x + y).subrange(i, i + m.len()) =~= x.subrange(i, i + m.len()));
        } else if i + m.len() <= x.len() + y.len() && (x + y).subrange(i, i + m.len()) == m {
            assert(m[x.len() - 1 - i] == (x + y).subrange(i, i + m.len())[x.len() - 1 - i]);
            assert(m[x.len() - 1 - i] == '\n');
        }
        lemma_find_from_concat(x, y, m, i + 1);
    }
}

/// Searching a suffix is searching the whole text from where it starts.
pub proof fn lemma_find_from_skip(x: Seq<char>, m: Seq<char>, d: int, j: int)
    requires
        0 <= d <= x.len(),
        0 <= j,
    ensures
        find_from(x.skip(d), m, j) == match find_from(x, m, d + j) {
            Some(k) => Some(k - d),
            None => None::<int>,
        },
    decreases x.len() + 1 - d - j,
{
    if j + m.len() <= x.len() - d {
        assert(x.skip(d).subrange(j, j + m.len()) =~= x.subrange(d + j, d + j + m.len()));
        lemma_find_from_skip(x, m, d, j + 1);
    }
}

/// Texts with the same occurrences of a pattern from `i` on find it at the
/// same place.
pub proof fn lemma_find_from_same(a: Seq<char>, b: Seq<char>, m: Seq<char>, i: int)
    requires
        0 <= i,
        forall|j: int|
            #![trigger occurs_at(a, m, j)]
            #![trigger occurs_at(b, m, j)]
            i <= j ==> (occurs_at(a, m, j) <==> occurs_at(b, m, j)),
    ensures
        find_from(a, m, i) == find_from(b, m, i),
    decreases a.len() + b.len() + 1 - i,
{
    assert(occurs_at(a, m, i) <==> occurs_at(b, m, i));
    if (i + m.len() <= a.len() || i + m.len() <= b.len()) && !occurs_at(a, m, i) {
        lemma_find_from_same(a, b, m, i + 1);
    }
}

/// What `find_from` returns is the first occurrence from `i` on.
pub proof fn lemma_find_from_first(s: Seq<char>, p: Seq<char>, i: int)
    requires
        0 <= i,
        find_from(s, p, i) is Some,
    ensures
        forall|j: int| i <= j < find_from(s, p, i)->0 ==> !occurs_at(s, p, j),
    decreases s.len() + 1 - i,
{
    if !(i + p.len() > s.len()) && s.subrange(i, i + p.len()) != p {
        lemma_find_from_first(s, p, i + 1);
    }
}

} // verus!
