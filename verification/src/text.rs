use vstd::prelude::*;

verus! {

/// The characters of `s`, in order.
pub fn chars_of(s: &str) -> (out: Vec<char>)
    ensures
        out@ == s@,
{
    let mut out: Vec<char> = Vec::new();
    for c in it: s.chars()
        invariant
            out@ == it.seq().take(it.index() as int),
            it.seq() == s@,
    {
        out.push(c);
    }
    out
}

/// The code point of `c` with the ASCII capitals mapped onto their small letters.
pub open spec fn folded(c: char) -> int {
    if 'A' <= c <= 'Z' {
        c as int + 32
    } else {
        c as int
    }
}

/// Equality of two texts up to the case of ASCII letters.
pub open spec fn same_ignoring_case(a: Seq<char>, b: Seq<char>) -> bool {
    &&& a.len() == b.len()
    &&& forall|i: int| 0 <= i < a.len() ==> folded(#[trigger] a[i]) == folded(b[i])
}

/// Computes [`folded`].
pub fn fold_char(c: char) -> (code: u32)
    ensures
        code == folded(c),
{
    let code: u32 = c as u32;
    if 65 <= code && code <= 90 {
        code + 32
    } else {
        code
    }
}

/// Decides [`same_ignoring_case`] on two character vectors.
pub fn eq_ignoring_case(a: &Vec<char>, b: &Vec<char>) -> (same: bool)
    ensures
        same == same_ignoring_case(a@, b@),
{
    if a.len() != b.len() {
        return false;
    }
    let mut i: usize = 0;
    while i < a.len()
        invariant
            a.len() == b.len(),
            i <= a.len(),
            forall|j: int| 0 <= j < i ==> folded(#[trigger] a@[j]) == folded(b@[j]),
        decreases a.len() - i,
    {
        if fold_char(a[i]) != fold_char(b[i]) {
            return false;
        }
        i += 1;
    }
    true
}

/// The characters that carry the Unicode `White_Space` property.
pub open spec fn is_space(c: char) -> bool {
    let n = c as int;
    ||| 0x09 <= n <= 0x0D
    ||| n == 0x20
    ||| n == 0x85
    ||| n == 0xA0
    ||| n == 0x1680
    ||| 0x2000 <= n <= 0x200A
    ||| n == 0x2028
    ||| n == 0x2029
    ||| n == 0x202F
    ||| n == 0x205F
    ||| n == 0x3000
}

/// Decides [`is_space`].
pub fn char_is_space(c: char) -> (space: bool)
    ensures
        space == is_space(c),
{
    let n: u32 = c as u32;
    (0x09 <= n && n <= 0x0D) || n == 0x20 || n == 0x85 || n == 0xA0 || n == 0x1680 || (0x2000 <= n
        && n <= 0x200A) || n == 0x2028 || n == 0x2029 || n == 0x202F || n == 0x205F || n == 0x3000
}

/// Length of the longest prefix of `s` whose characters all satisfy `p`.
pub open spec fn leading_run(s: Seq<char>, p: spec_fn(char) -> bool) -> nat
    decreases s.len(),
{
    if s.len() > 0 && p(s[0]) {
        1 + leading_run(s.drop_first(), p)
    } else {
        0
    }
}

/// Length of the longest suffix of `s` whose characters all satisfy `p`.
pub open spec fn trailing_run(s: Seq<char>, p: spec_fn(char) -> bool) -> nat
    decreases s.len(),
{
    if s.len() > 0 && p(s.last()) {
        1 + trailing_run(s.drop_last(), p)
    } else {
        0
    }
}

/// `s` without its leading and trailing white space.
pub open spec fn trimmed(s: Seq<char>) -> Seq<char> {
    let rest = s.skip(leading_run(s, |c: char| is_space(c)) as int);
    rest.take(rest.len() - trailing_run(rest, |c: char| is_space(c)))
}

/// `n` characters that satisfy `p`, followed by one that does not or by the end, are the
/// leading run.
pub proof fn lemma_leading_run_is(s: Seq<char>, p: spec_fn(char) -> bool, n: int)
    requires
        0 <= n <= s.len(),
        forall|i: int| 0 <= i < n ==> p(#[trigger] s[i]),
        n < s.len() ==> !p(s[n]),
    ensures
        leading_run(s, p) == n,
    decreases s.len(),
{
    if n > 0 {
        let t = s.drop_first();
        assert(p(s[0]));
        assert forall|i: int| 0 <= i < n - 1 implies p(#[trigger] t[i]) by {
            assert(t[i] == s[i + 1]);
        }
        lemma_leading_run_is(t, p, n - 1);
    }
}

/// The mirror image of [`lemma_leading_run_is`].
pub proof fn lemma_trailing_run_is(s: Seq<char>, p: spec_fn(char) -> bool, n: int)
    requires
        0 <= n <= s.len(),
        forall|i: int| s.len() - n <= i < s.len() ==> p(#[trigger] s[i]),
        n < s.len() ==> !p(s[s.len() - n - 1]),
    ensures
        trailing_run(s, p) == n,
    decreases s.len(),
{
    if n > 0 {
        let t = s.drop_last();
        assert(p(s[s.len() - 1]));
        assert forall|i: int| t.len() - (n - 1) <= i < t.len() implies p(#[trigger] t[i]) by {
            assert(t[i] == s[i]);
        }
        lemma_trailing_run_is(t, p, n - 1);
    }
}

/// The bounds of [`trimmed`] within `s`.
pub fn trim_bounds(s: &Vec<char>) -> (bounds: (usize, usize))
    ensures
        bounds.0 <= bounds.1 <= s.len(),
        s@.subrange(bounds.0 as int, bounds.1 as int) == trimmed(s@),
{
    let mut start: usize = 0;
    while start < s.len() && char_is_space(s[start])
        invariant
            start <= s.len(),
            forall|i: int| 0 <= i < start ==> is_space(#[trigger] s@[i]),
        decreases s.len() - start,
    {
        start += 1;
    }
    let mut end: usize = s.len();
    while end > start && char_is_space(s[end - 1])
        invariant
            start <= end <= s.len(),
            forall|i: int| end <= i < s.len() ==> is_space(#[trigger] s@[i]),
        decreases end,
    {
        end -= 1;
    }
    proof {
        let p = |c: char| is_space(c);
        lemma_leading_run_is(s@, p, start as int);
        let rest = s@.skip(start as int);
        assert forall|i: int| rest.len() - (s.len() - end) <= i < rest.len() implies p(
            #[trigger] rest[i],
        ) by {
            assert(rest[i] == s@[i + start]);
        }
        if s.len() - end < rest.len() {
            assert(rest[rest.len() - (s.len() - end) - 1] == s@[end - 1]);
        }
        lemma_trailing_run_is(rest, p, (s.len() - end) as int);
        assert(rest.take(rest.len() - (s.len() - end)) =~= s@.subrange(start as int, end as int));
    }
    (start, end)
}

/// The characters of `s` from `from` up to `to`, as a new vector.
pub fn slice_of(s: &Vec<char>, from: usize, to: usize) -> (out: Vec<char>)
    requires
        from <= to <= s.len(),
    ensures
        out@ == s@.subrange(from as int, to as int),
{
    let mut out: Vec<char> = Vec::new();
    let mut i: usize = from;
    while i < to
        invariant
            from <= i <= to <= s.len(),
            out@ == s@.subrange(from as int, i as int),
        decreases to - i,
    {
        out.push(s[i]);
        i += 1;
    }
    out
}

/// Decides whether two strings hold the same characters.
pub fn same_text(a: &str, b: &str) -> (same: bool)
    ensures
        same == (a@ == b@),
{
    let x = chars_of(a);
    let y = chars_of(b);
    if x.len() != y.len() {
        return false;
    }
    let mut i: usize = 0;
    while i < x.len()
        invariant
            x.len() == y.len(),
            i <= x.len(),
            x@ == a@,
            y@ == b@,
            forall|j: int| 0 <= j < i ==> x@[j] == y@[j],
        decreases x.len() - i,
    {
        if x[i] != y[i] {
            return false;
        }
        i += 1;
    }
    assert(x@ =~= y@);
    true
}

/// How many characters of `s` satisfy `p`.
pub open spec fn count_of(s: Seq<char>, p: spec_fn(char) -> bool) -> nat
    decreases s.len(),
{
    if s.len() == 0 {
        0
    } else {
        count_of(s.drop_last(), p) + if p(s.last()) {
            1nat
        } else {
            0nat
        }
    }
}

/// A decimal digit.
pub open spec fn is_digit(c: char) -> bool {
    '0' <= c <= '9'
}

/// Decides [`is_digit`].
pub fn char_is_digit(c: char) -> (digit: bool)
    ensures
        digit == is_digit(c),
{
    let n: u32 = c as u32;
    48 <= n && n <= 57
}

/// Whether every character of `s` is a decimal digit.
pub open spec fn all_digits(s: Seq<char>) -> bool {
    forall|i: int| 0 <= i < s.len() ==> is_digit(#[trigger] s[i])
}

/// The number that a text of decimal digits writes.
pub open spec fn decimal_value(digits: Seq<char>) -> nat
    decreases digits.len(),
{
    if digits.len() == 0 {
        0
    } else {
        decimal_value(digits.drop_last()) * 10 + (digits.last() as nat - 48) as nat
    }
}

/// The number that `text` writes, where it is one or more decimal digits and the number is at
/// most `max`.
pub open spec fn unsigned_parsed(text: Seq<char>, max: nat) -> Option<nat> {
    if text.len() >= 1 && all_digits(text) && decimal_value(text) <= max {
        Some(decimal_value(text))
    } else {
        None
    }
}

/// Dropping digits from the end never makes the number larger.
pub proof fn lemma_decimal_value_grows(digits: Seq<char>, n: int)
    requires
        0 <= n <= digits.len(),
    ensures
        decimal_value(digits.take(n)) <= decimal_value(digits),
    decreases digits.len(),
{
    if n == digits.len() {
        assert(digits.take(n) =~= digits);
    } else {
        lemma_decimal_value_grows(digits.drop_last(), n);
        assert(digits.drop_last().take(n) =~= digits.take(n));
    }
}

/// Reads an unsigned decimal number of at most `max` from the characters `from..` of `text`.
pub fn parse_unsigned(text: &Vec<char>, from: usize, max: u64) -> (parsed: Option<u64>)
    requires
        from <= text.len(),
    ensures
        parsed == match unsigned_parsed(text@.skip(from as int), max as nat) {
            Some(n) => Some(n as u64),
            None => None::<u64>,
        },
{
    let ghost digits = text@.skip(from as int);
    if from == text.len() {
        return None;
    }
    let mut value: u64 = 0;
    let mut i: usize = from;
    while i < text.len()
        invariant
            from <= i <= text.len(),
            digits == text@.skip(from as int),
            all_digits(digits.take(i - from)),
            value == decimal_value(digits.take(i - from)),
            value <= max,
        decreases text.len() - i,
    {
        let c = text[i];
        assert(digits[i - from] == c);
        if !char_is_digit(c) {
            return None;
        }
        let d: u64 = (c as u32 - 48) as u64;
        proof {
            assert(digits.take(i - from + 1).drop_last() =~= digits.take(i - from));
            assert(digits.take(i - from + 1).last() == c);
            lemma_decimal_value_grows(digits, i - from + 1);
        }
        if d > max || value > (max - d) / 10 {
            assert(decimal_value(digits.take(i - from + 1)) > max);
            return None;
        }
        value = value * 10 + d;
        i += 1;
    }
    assert(digits.take(i - from) =~= digits);
    Some(value)
}

} // verus!
