//! Characters, decimal numbers and strings.
use vstd::prelude::*;

verus! {

/// `String::push`: appends the character to the end of the string.
pub assume_specification[ String::push ](s: &mut String, c: char)
    ensures
        final(s)@ == old(s)@.push(c),
;

/// The characters of `s`, in order.
pub fn chars_of(s: &str) -> (out: Vec<char>)
    ensures
        out@ == s@,
{
    let mut out: Vec<char> = Vec::new();
    for c in it: s.chars()
        invariant
            out@ == it.seq().take(it.index() as int),
            it.seq() == s@,
    {
        out.push(c);
    }
    out
}

/// The string of the characters at `start..end`.
pub fn string_of(chars: &Vec<char>, start: usize, end: usize) -> (out: String)
    requires
        start <= end <= chars@.len(),
    ensures
        out@ == chars@.subrange(start as int, end as int),
{
    let mut out: String = String::new();
    let mut i: usize = start;
    while i < end
        invariant
            start <= i <= end <= chars@.len(),
            out@ == chars@.subrange(start as int, i as int),
        decreases end - i,
    {
        out.push(chars[i]);
        i = i + 1;
    }
    out
}

/// Whether `c` is one of the ten ASCII digits.
pub open spec fn is_digit(c: char) -> bool {
    '0' <= c && c <= '9'
}

/// Whether every character of `s` is an ASCII digit.
pub open spec fn all_digits(s: Seq<char>) -> bool {
    forall|i: int| 0 <= i < s.len() ==> is_digit(#[trigger] s[i])
}

/// The number that a digit stands for.
pub open spec fn digit_value(c: char) -> nat {
    (c as int - '0' as int) as nat
}

/// The number that a run of decimal digits spells.
pub open spec fn decimal_value(s: Seq<char>) -> nat
    decreases s.len(),
{
    if s.len() == 0 {
        0
    } else {
        10 * decimal_value(s.drop_last()) + digit_value(s.last())
    }
}

/// The digit that stands for `n`, a number below ten.
pub open spec fn digit_char(n: nat) -> char {
    ('0' as int + n) as char
}

/// `n` in decimal, without leading zeros.
pub open spec fn decimal(n: nat) -> Seq<char>
    decreases n,
{
    if n < 10 {
        seq![digit_char(n)]
    } else {
        decimal(n / 10).push(digit_char(n % 10))
    }
}

/// The number up to `max` that `s` spells as an optional `+` and one or more digits.
pub open spec fn parsed_unsigned(s: Seq<char>, max: nat) -> Option<nat> {
    let digits = if s.len() > 0 && s[0] == '+' {
        s.skip(1)
    } else {
        s
    };
    if digits.len() > 0 && all_digits(digits) && decimal_value(digits) <= max {
        Some(decimal_value(digits))
    } else {
        None
    }
}

/// Decimal notation spells the number that it was made from.
pub proof fn decimal_spells_its_number(n: nat)
    ensures
        decimal(n).len() > 0,
        all_digits(decimal(n)),
        decimal_value(decimal(n)) == n,
    decreases n,
{
    if n < 10 {
        let s = decimal(n);
        assert(s.drop_last() =~= Seq::<char>::empty());
        assert(decimal_value(s.drop_last()) == 0);
    } else {
        decimal_spells_its_number(n / 10);
        let s = decimal(n);
        assert(s.drop_last() =~= decimal(n / 10));
    }
}

/// Two numbers with the same decimal notation are the same number.
pub proof fn decimal_is_injective(m: nat, n: nat)
    requires
        decimal(m) == decimal(n),
    ensures
        m == n,
{
    decimal_spells_its_number(m);
    decimal_spells_its_number(n);
}

/// A longer run of digits spells a number that is at least as large.
pub(crate) proof fn lemma_decimal_value_grows(s: Seq<char>, i: int)
    requires
        0 <= i <= s.len(),
    ensures
        decimal_value(s.take(i)) <= decimal_value(s),
    decreases s.len(),
{
    if i < s.len() {
        lemma_decimal_value_grows(s.drop_last(), i);
        assert(s.drop_last().take(i) =~= s.take(i));
    } else {
        assert(s.take(i) =~= s);
    }
}

/// Reads the digits at `start..end` as a number up to `max`.
pub fn read_digits(chars: &Vec<char>, start: usize, end: usize, max: u64) -> (out: Option<u64>)
    requires
        start <= end <= chars@.len(),
        all_digits(chars@.subrange(start as int, end as int)),
    ensures
        out == (if decimal_value(chars@.subrange(start as int, end as int)) <= max {
            Some(decimal_value(chars@.subrange(start as int, end as int)) as u64)
        } else {
            None
        }),
{
    let ghost all = chars@.subrange(start as int, end as int);
    let mut value: u64 = 0;
    let mut i: usize = start;
    while i < end
        invariant
            start <= i <= end <= chars@.len(),
            all == chars@.subrange(start as int, end as int),
            all_digits(all),
            value == decimal_value(all.take(i - start)),
            value <= max,
        decreases end - i,
    {
        let c: char = chars[i];
        assert(c == all[i - start]);
        let digit: u64 = c as u64 - '0' as u64;
        proof {
            let more = all.take(i + 1 - start);
            assert(more.drop_last() =~= all.take(i - start));
            assert(more.last() == c);
            assert(decimal_value(more) == 10 * value + digit);
            lemma_decimal_value_grows(all, i + 1 - start);
        }
        if value > max / 10 || digit > max - value * 10 {
            return None;
        }
        value = value * 10 + digit;
        i = i + 1;
    }
    assert(all.take(end - start) =~= all);
    Some(value)
}

/// Reads `chars` as an unsigned number up to `max`.
pub fn parse_unsigned(chars: &Vec<char>, max: u64) -> (out: Option<u64>)
    ensures
        match out {
            Some(n) => parsed_unsigned(chars@, max as nat) == Some(n as nat),
            None => parsed_unsigned(chars@, max as nat) is None,
        },
{
    let start: usize = if chars.len() > 0 && chars[0] == '+' {
        1
    } else {
        0
    };
    let ghost digits = chars@.skip(start as int);
    assert(start == 0 ==> digits =~= chars@);
    if chars.len() == start {
        return None;
    }
    let mut i: usize = start;
    while i < chars.len()
        invariant
            start <= i <= chars@.len(),
            digits == chars@.skip(start as int),
            digits == (if chars@.len() > 0 && chars@[0] == '+' {
                chars@.skip(1)
            } else {
                chars@
            }),
            forall|j: int| start <= j < i ==> is_digit(#[trigger] chars@[j]),
        decreases chars@.len() - i,
    {
        if !('0' <= chars[i] && chars[i] <= '9') {
            assert(!is_digit(digits[i - start]));
            return None;
        }
        i = i + 1;
    }
    assert(chars@.subrange(start as int, chars@.len() as int) =~= digits);
    assert forall|j: int| 0 <= j < digits.len() implies is_digit(#[trigger] digits[j]) by {
        assert(digits[j] == chars@[j + start]);
    }
    read_digits(chars, start, chars.len(), max)
}

/// Whether `c` has the Unicode property `White_Space`.
pub open spec fn is_space(c: char) -> bool {
    let n = c as int;
    ||| 0x9 <= n <= 0xd
    ||| n == 0x20
    ||| n == 0x85
    ||| n == 0xa0
    ||| n == 0x1680
    ||| 0x2000 <= n <= 0x200a
    ||| n == 0x2028
    ||| n == 0x2029
    ||| n == 0x202f
    ||| n == 0x205f
    ||| n == 0x3000
}

/// `s` without the white space at its two ends.
pub open spec fn trimmed(s: Seq<char>) -> Seq<char>
    decreases s.len(),
{
    if s.len() > 0 && is_space(s[0]) {
        trimmed(s.skip(1))
    } else if s.len() > 0 && is_space(s.last()) {
        trimmed(s.drop_last())
    } else {
        s
    }
}

/// Tests for white space as `is_space` defines it.
pub fn is_space_char(c: char) -> (out: bool)
    ensures
        out == is_space(c),
{
    let n: u32 = c as u32;
    (0x9 <= n && n <= 0xd) || n == 0x20 || n == 0x85 || n == 0xa0 || n == 0x1680 || (0x2000 <= n
        && n <= 0x200a) || n == 0x2028 || n == 0x2029 || n == 0x202f || n == 0x205f || n == 0x3000
}

/// Drops the white space at the two ends of `chars`.
pub fn trim(chars: &Vec<char>) -> (out: Vec<char>)
    ensures
        out@ == trimmed(chars@),
{
    let mut start: usize = 0;
    assert(chars@.subrange(0, chars@.len() as int) =~= chars@);
    while start < chars.len() && is_space_char(chars[start])
        invariant
            start <= chars@.len(),
            trimmed(chars@) == trimmed(chars@.subrange(start as int, chars@.len() as int)),
        decreases chars@.len() - start,
    {
        let ghost rest = chars@.subrange(start as int, chars@.len() as int);
        assert(rest.skip(1) =~= chars@.subrange(start + 1, chars@.len() as int));
        start = start + 1;
    }
    let mut end: usize = chars.len();
    while start < end && is_space_char(chars[end - 1])
        invariant
            start <= end <= chars@.len(),
            start < end ==> !is_space(chars@[start as int]),
            trimmed(chars@) == trimmed(chars@.subrange(start as int, end as int)),
        decreases end,
    {
        let ghost rest = chars@.subrange(start as int, end as int);
        assert(rest.drop_last() =~= chars@.subrange(start as int, end - 1));
        assert(rest[0] == chars@[start as int]);
        assert(rest.last() == chars@[end - 1]);
        end = end - 1;
    }
    let ghost rest = chars@.subrange(start as int, end as int);
    assert(rest.len() > 0 ==> rest[0] == chars@[start as int] && rest.last() == chars@[end - 1]);
    copy_range(chars, start, end)
}

/// The characters at `start..end`.
pub fn copy_range(chars: &Vec<char>, start: usize, end: usize) -> (out: Vec<char>)
    requires
        start <= end <= chars@.len(),
    ensures
        out@ == chars@.subrange(start as int, end as int),
{
    let mut out: Vec<char> = Vec::new();
    let mut i: usize = start;
    while i < end
        invariant
            start <= i <= end <= chars@.len(),
            out@ == chars@.subrange(start as int, i as int),
        decreases end - i,
    {
        out.push(chars[i]);
        i = i + 1;
    }
    out
}

/// The pieces of `s` between the characters for which `is_separator` holds. There is one
/// piece more than there are separators, and a piece may be empty.
pub open spec fn split_where(s: Seq<char>, is_separator: spec_fn(char) -> bool) -> Seq<Seq<char>>
    decreases s.len(),
{
    if s.len() == 0 {
        seq![Seq::<char>::empty()]
    } else {
        let before = split_where(s.drop_last(), is_separator);
        if is_separator(s.last()) {
            before.push(Seq::empty())
        } else {
            before.drop_last().push(before.last().push(s.last()))
        }
    }
}

pub(crate) proof fn lemma_split_where_not_empty(s: Seq<char>, is_separator: spec_fn(char) -> bool)
    ensures
        split_where(s, is_separator).len() > 0,
    decreases s.len(),
{
    if s.len() > 0 {
        lemma_split_where_not_empty(s.drop_last(), is_separator);
    }
}

pub(crate) proof fn lemma_split_around(
    a: Seq<char>,
    c: char,
    b: Seq<char>,
    is_separator: spec_fn(char) -> bool,
)
    requires
        is_separator(c),
    ensures
        split_where(a + seq![c] + b, is_separator) == split_where(a, is_separator) + split_where(
            b,
            is_separator,
        ),
    decreases b.len(),
{
    let whole = a + seq![c] + b;
    let before = split_where(a, is_separator);
    if b.len() == 0 {
        assert(whole.drop_last() =~= a);
        assert(whole.last() == c);
        assert(split_where(b, is_separator) =~= seq![Seq::<char>::empty()]);
        assert(before + split_where(b, is_separator) =~= before.push(Seq::empty()));
    } else {
        let front = b.drop_last();
        lemma_split_around(a, c, front, is_separator);
        lemma_split_where_not_empty(front, is_separator);
        assert(whole.drop_last() =~= a + seq![c] + front);
        assert(whole.last() == b.last());
        let shorter = before + split_where(front, is_separator);
        assert(shorter.last() == split_where(front, is_separator).last());
        assert(shorter.drop_last() =~= before + split_where(front, is_separator).drop_last());
        assert(split_where(whole, is_separator) =~= before + split_where(b, is_separator));
    }
}

pub(crate) proof fn lemma_split_whole(s: Seq<char>, is_separator: spec_fn(char) -> bool)
    requires
        forall|i: int| 0 <= i < s.len() ==> !is_separator(#[trigger] s[i]),
    ensures
        split_where(s, is_separator) == seq![s],
    decreases s.len(),
{
    if s.len() == 0 {
        assert(s =~= Seq::empty());
    } else {
        let front = s.drop_last();
        assert forall|i: int| 0 <= i < front.len() implies !is_separator(#[trigger] front[i]) by {
            assert(front[i] == s[i]);
        }
        lemma_split_whole(front, is_separator);
        assert(s.last() == s[s.len() - 1]);
        assert(front.push(s.last()) =~= s);
        assert(split_where(s, is_separator) =~= seq![s]);
    }
}

/// The texts of a list of strings.
pub open spec fn texts(strings: Seq<String>) -> Seq<Seq<char>> {
    strings.map_values(|s: String| s@)
}

/// The texts of `parts`, with `separator` between them.
pub open spec fn joined(parts: Seq<Seq<char>>, separator: Seq<char>) -> Seq<char>
    decreases parts.len(),
{
    if parts.len() == 0 {
        Seq::empty()
    } else if parts.len() == 1 {
        parts[0]
    } else {
        joined(parts.drop_last(), separator) + separator + parts.last()
    }
}

/// Joins strings with a separator between them.
pub fn join(parts: &Vec<String>, separator: &str) -> (out: String)
    ensures
        out@ == joined(texts(parts@), separator@),
{
    let mut out: String = String::new();
    let mut i: usize = 0;
    let ghost all = texts(parts@);
    assert(all.take(0) =~= Seq::empty());
    while i < parts.len()
        invariant
            i <= parts@.len(),
            all == texts(parts@),
            out@ == joined(all.take(i as int), separator@),
        decreases parts@.len() - i,
    {
        proof {
            assert(all.take(i + 1).drop_last() =~= all.take(i as int));
            assert(all.take(i + 1).last() == parts@[i as int]@);
            assert(i == 0 ==> Seq::<char>::empty() + parts@[0]@ =~= all.take(1)[0]);
        }
        if i > 0 {
            out.append(separator);
        }
        out.append(parts[i].as_str());
        i = i + 1;
    }
    assert(all.take(i as int) =~= all);
    out
}

/// Appends `n` in decimal.
pub fn push_decimal(out: &mut String, n: u64)
    ensures
        final(out)@ == old(out)@ + decimal(n as nat),
    decreases n,
{
    if n >= 10 {
        push_decimal(out, n / 10);
    }
    let digit: u8 = (n % 10) as u8;
    out.push(('0' as u8 + digit) as char);
    assert(out@ =~= old(out)@ + decimal(n as nat));
}

/// The lower-case form of an ASCII letter; any other character is its own.
pub open spec fn ascii_lower(c: char) -> char {
    if 'A' <= c && c <= 'Z' {
        (c as int + 32) as char
    } else {
        c
    }
}

/// `s` with its ASCII letters in lower case.
pub open spec fn ascii_lowered(s: Seq<char>) -> Seq<char> {
    s.map_values(|c: char| ascii_lower(c))
}

/// Lowers the ASCII letters at `start..end`.
pub fn lower_ascii(chars: &Vec<char>, start: usize, end: usize) -> (out: Vec<char>)
    requires
        start <= end <= chars@.len(),
    ensures
        out@ == ascii_lowered(chars@.subrange(start as int, end as int)),
{
    let mut out: Vec<char> = Vec::new();
    let mut i: usize = start;
    while i < end
        invariant
            start <= i <= end <= chars@.len(),
            out@ == ascii_lowered(chars@.subrange(start as int, i as int)),
        decreases end - i,
    {
        let c: char = chars[i];
        let lowered: char = if 'A' <= c && c <= 'Z' {
            (c as u8 + 32) as char
        } else {
            c
        };
        out.push(lowered);
        proof {
            assert(chars@.subrange(start as int, i + 1) =~= chars@.subrange(
                start as int,
                i as int,
            ).push(c));
            assert(out@ =~= ascii_lowered(chars@.subrange(start as int, i + 1)));
        }
        i = i + 1;
    }
    out
}

/// Compares characters with a text.
pub fn is_text(chars: &Vec<char>, s: &str) -> (out: bool)
    ensures
        out == (chars@ == s@),
{
    let other: Vec<char> = chars_of(s);
    if chars.len() != other.len() {
        return false;
    }
    let mut i: usize = 0;
    while i < chars.len()
        invariant
            i <= chars@.len(),
            chars@.len() == other@.len(),
            other@ == s@,
            forall|j: int| 0 <= j < i ==> chars@[j] == other@[j],
        decreases chars@.len() - i,
    {
        if chars[i] != other[i] {
            return false;
        }
        i = i + 1;
    }
    assert(chars@ =~= other@);
    true
}

pub open spec fn ends_with(s: Seq<char>, suffix: Seq<char>) -> bool {
    &&& s.len() >= suffix.len()
    &&& s.skip(s.len() - suffix.len()) == suffix
}

/// Tells whether characters end with a text.
pub fn has_suffix(chars: &Vec<char>, suffix: &str) -> (out: bool)
    ensures
        out == ends_with(chars@, suffix@),
{
    let end: Vec<char> = chars_of(suffix);
    let len: usize = chars.len();
    if len < end.len() {
        return false;
    }
    let tail: Vec<char> = copy_range(chars, len - end.len(), len);
    assert(tail@ =~= chars@.skip(len - end@.len()));
    is_text(&tail, suffix)
}

/// Decimal notation is positional: a number below ten is its digit, and a digit behind a number
/// multiplies it by ten and adds itself.
pub proof fn decimal_is_positional(n: nat, d: nat)
    requires
        d < 10,
    ensures
        decimal(d) == seq![(48 + d) as char],
        n > 0 ==> decimal(10 * n + d) == decimal(n).push((48 + d) as char),
{
    assert((10 * n + d) / 10 == n && (10 * n + d) % 10 == d);
}

/// A number is read as it is written: digit by digit, up to the maximum.
pub proof fn numbers_are_read_digit_by_digit(s: Seq<char>, d: nat, n: nat, max: nat)
    requires
        d < 10,
    ensures
        parsed_unsigned(seq![(48 + d) as char], max) == (if d <= max {
            Some(d)
        } else {
            None
        }),
        parsed_unsigned(s, n) == Some(n) ==> parsed_unsigned(s.push((48 + d) as char), max) == (
        if 10 * n + d <= max {
            Some(10 * n + d)
        } else {
            None
        }),
{
    let c = (48 + d) as char;
    let one = seq![c];
    assert(one.drop_last() =~= Seq::<char>::empty());
    assert(decimal_value(one.drop_last()) == 0);
    assert(one.last() == c);
    if parsed_unsigned(s, n) == Some(n) {
        let digits = if s[0] == '+' {
            s.skip(1)
        } else {
            s
        };
        let more = digits.push(c);
        assert(s.push(c)[0] == s[0]);
        assert(s.push(c).skip(1) =~= s.skip(1).push(c));
        assert(more.drop_last() =~= digits);
        assert forall|i: int| 0 <= i < more.len() implies is_digit(#[trigger] more[i]) by {
            if i < digits.len() {
                assert(is_digit(digits[i]));
            }
        }
    }
}

/// A plus sign before a number changes nothing; any other character that is no digit, wherever it
/// stands, and a text without digits make it no number. No number is above the maximum.
pub proof fn only_digits_are_read(s: Seq<char>, max: nat)
    ensures
        s.len() > 0 && s[0] != '+' ==> parsed_unsigned(seq!['+'] + s, max) == parsed_unsigned(
            s,
            max,
        ),
        parsed_unsigned(s, max) is Some ==> parsed_unsigned(s, max)->0 <= max,
        parsed_unsigned(s, max) is Some ==> forall|i: int|
            #![trigger s[i]]
            0 <= i < s.len() ==> 48 <= s[i] as int <= 57 || (i == 0 && s[0] == '+' && s.len() > 1),
        s.len() == 0 ==> parsed_unsigned(s, max) is None,
{
    assert((seq!['+'] + s).skip(1) =~= s);
    if parsed_unsigned(s, max) is Some && s[0] == '+' {
        let digits = s.skip(1);
        assert forall|i: int| 0 < i < s.len() implies 48 <= #[trigger] s[i] as int <= 57 by {
            assert(is_digit(digits[i - 1]));
        }
    }
}

/// A number in decimal notation is read back where it does not exceed the maximum.
pub proof fn numbers_are_read_back(n: nat, max: nat)
    ensures
        parsed_unsigned(decimal(n), max) == (if n <= max {
            Some(n)
        } else {
            None
        }),
{
    decimal_spells_its_number(n);
    assert(is_digit(decimal(n)[0]));
}

/// Blanks, tabs and line ends are white space, and so are the other spaces and line ends of
/// Unicode; letters, digits and punctuation are not.
pub proof fn printed_characters_are_no_space(c: char)
    ensures
        c as int == 32 || 9 <= c as int <= 13 ==> is_space(c),
        33 <= c as int <= 126 ==> !is_space(c),
        (c as int) < 9 || 13 < (c as int) < 32 ==> !is_space(c),
        c as int == 0xa0 || 0x2000 <= c as int <= 0x200a || c as int == 0x3000 ==> is_space(c),
        0xa1 <= c as int <= 0x167f || 0x3001 <= c as int ==> !is_space(c),
        c as int == 0x85 || c as int == 0x1680 || c as int == 0x2028 || c as int == 0x2029
            || c as int == 0x202f || c as int == 0x205f ==> is_space(c),
        127 <= c as int <= 0x84 || 0x86 <= c as int <= 0x9f || 0x1681 <= c as int <= 0x1fff
            ==> !is_space(c),
        0x200b <= c as int <= 0x2027 || 0x202a <= c as int <= 0x202e || 0x2030 <= c as int <= 0x205e
            || 0x2060 <= c as int <= 0x2fff ==> !is_space(c),
{
}

/// Trimming takes all white space off the two ends, and nothing else.
pub proof fn trimming_takes_the_ends(before: Seq<char>, core: Seq<char>, after: Seq<char>)
    requires
        forall|i: int| 0 <= i < before.len() ==> is_space(#[trigger] before[i]),
        forall|i: int| 0 <= i < after.len() ==> is_space(#[trigger] after[i]),
        core.len() > 0 ==> !is_space(core[0]) && !is_space(core.last()),
    ensures
        trimmed(before + core + after) == core,
    decreases before.len() + after.len(),
{
    let s = before + core + after;
    if before.len() > 0 {
        assert(s[0] == before[0]);
        assert(s.skip(1) =~= before.skip(1) + core + after);
        trimming_takes_the_ends(before.skip(1), core, after);
    } else if after.len() > 0 {
        if core.len() == 0 {
            assert(s[0] == after[0]);
            assert(s.skip(1) =~= before + core + after.skip(1));
            trimming_takes_the_ends(before, core, after.skip(1));
        } else {
            assert(s[0] == core[0]);
            assert(s.last() == after[after.len() - 1]);
            assert(s.drop_last() =~= before + core + after.drop_last());
            trimming_takes_the_ends(before, core, after.drop_last());
        }
    } else {
        assert(s =~= core);
    }
}

/// Splitting loses nothing but the separators: no piece holds one, and the pieces with the
/// separator between them are the text.
pub proof fn pieces_make_up_the_text(s: Seq<char>, separator: char)
    ensures
        ({
            let pieces = split_where(s, |c: char| c == separator);
            &&& joined(pieces, seq![separator]) == s
            &&& forall|k: int| 0 <= k < pieces.len() ==> !(#[trigger] pieces[k]).contains(separator)
        }),
    decreases s.len(),
{
    let is_separator = |c: char| c == separator;
    let pieces = split_where(s, is_separator);
    lemma_split_where_not_empty(s, is_separator);
    if s.len() == 0 {
        assert(pieces =~= seq![Seq::<char>::empty()]);
        assert(s =~= Seq::empty());
    } else {
        let front = s.drop_last();
        let before = split_where(front, is_separator);
        pieces_make_up_the_text(front, separator);
        lemma_split_where_not_empty(front, is_separator);
        assert(s =~= front.push(s.last()));
        if s.last() == separator {
            assert(pieces.drop_last() =~= before);
            assert(joined(pieces, seq![separator]) =~= s);
        } else {
            assert(pieces.drop_last() =~= before.drop_last());
            assert(joined(pieces, seq![separator]) =~= s);
            assert forall|k: int| 0 <= k < pieces.len() implies !(#[trigger] pieces[k]).contains(
                separator,
            ) by {
                if k < pieces.len() - 1 {
                    assert(pieces[k] == before[k]);
                } else {
                    let old = before[before.len() - 1];
                    assert(pieces[k] == old.push(s.last()));
                    if pieces[k].contains(separator) {
                        let j = choose|j: int| 0 <= j < pieces[k].len() && pieces[k][j] == separator;
                        assert(j < old.len());
                        assert(old[j] == separator);
                        assert(old.contains(separator));
                    }
                }
            }
        }
    }
}

/// A part that joins others comes behind them and the separator; alone it stands as it is.
pub proof fn parts_are_joined_in_turn(parts: Seq<Seq<char>>, separator: Seq<char>, part: Seq<char>)
    ensures
        joined(Seq::empty(), separator) == Seq::<char>::empty(),
        joined(seq![part], separator) == part,
        parts.len() > 0 ==> joined(parts.push(part), separator) == joined(parts, separator)
            + separator + part,
{
    assert(parts.push(part).drop_last() =~= parts);
}

/// Lowering keeps every character but the capital letters, which become the small ones.
pub proof fn lowering_changes_capitals(s: Seq<char>)
    ensures
        ascii_lowered(s).len() == s.len(),
        forall|i: int|
            #![trigger ascii_lowered(s)[i]]
            0 <= i < s.len() ==> ascii_lowered(s)[i] as int == (if 65 <= s[i] as int <= 90 {
                s[i] as int + 32
            } else {
                s[i] as int
            }),
{
}

/// A text ends with its tails and with nothing else.
pub proof fn tails_are_ends(s: Seq<char>, front: Seq<char>, suffix: Seq<char>)
    ensures
        ends_with(front + suffix, suffix),
        ends_with(s, suffix) ==> s == s.take(s.len() - suffix.len()) + suffix,
{
    assert((front + suffix).skip(front.len() as int) =~= suffix);
    if ends_with(s, suffix) {
        assert(s =~= s.take(s.len() - suffix.len()) + s.skip(s.len() - suffix.len()));
    }
}

/// The texts of strings are theirs, one for one.
pub proof fn texts_are_those_of_the_strings(strings: Seq<String>)
    ensures
        texts(strings).len() == strings.len(),
        forall|i: int|
            #![trigger texts(strings)[i]]
            0 <= i < strings.len() ==> texts(strings)[i] == strings[i]@,
{
}

/// Whether `text` spells `small`, a text without capital letters, with each letter in upper or
/// lower case.
pub open spec fn spells(text: Seq<char>, small: Seq<char>) -> bool {
    &&& text.len() == small.len()
    &&& forall|i: int|
        0 <= i < text.len() ==> #[trigger] text[i] == small[i] || (65 <= text[i] as int <= 90
            && text[i] as int + 32 == small[i] as int)
}

pub(crate) proof fn lemma_spelling(text: Seq<char>, small: Seq<char>)
    requires
        forall|i: int| 0 <= i < small.len() ==> !(65 <= #[trigger] small[i] as int <= 90),
    ensures
        spells(text, small) == (ascii_lowered(text) == small),
{
    let lowered = ascii_lowered(text);
    if spells(text, small) {
        assert forall|i: int| 0 <= i < text.len() implies lowered[i] == small[i] by {
            assert(!(65 <= small[i] as int <= 90));
            assert(text[i] == small[i] || text[i] as int + 32 == small[i] as int);
        }
        assert(lowered =~= small);
    }
    if lowered == small {
        assert forall|i: int| 0 <= i < text.len() implies #[trigger] text[i] == small[i] || (65
            <= text[i] as int <= 90 && text[i] as int + 32 == small[i] as int) by {
            assert(lowered[i] == small[i]);
        }
    }
}

} // verus!
