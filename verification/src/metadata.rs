//! What a model says about itself: its classes, its input size and its channels.
use vstd::prelude::*;

use crate::names::parse_names;
use crate::text::{chars_of, parse_unsigned, read_digits, trim};
#[allow(unused_imports)]
use crate::names::{dict_text, labels_from, listed_names};
#[allow(unused_imports)]
use crate::text::{
    all_digits, decimal, decimal_spells_its_number, decimal_value, is_digit,
    is_space, lemma_split_where_not_empty, parsed_unsigned, split_where, texts, trimmed,
};

verus! {

/// The edge length for a model that does not state its input size.
pub const FALLBACK_IMGSZ: u32 = 640;

/// Everything that sorting needs to know about a model.
pub struct ModelInfo {
    pub class_names: Vec<String>,
    pub width: u32,
    pub height: u32,
    pub channels: usize,
    pub input_name: String,
}

/// The class names for a model that does not list its own.
pub open spec fn fallback_classes() -> Seq<Seq<char>> {
    seq!["manta"@, "non_fish"@, "other_fish"@]
}

/// The number of each piece that spells one up to `u32::MAX`; the other pieces are left out.
pub open spec fn numbers_of(pieces: Seq<Seq<char>>) -> Seq<nat>
    decreases pieces.len(),
{
    if pieces.len() == 0 {
        Seq::empty()
    } else {
        let before = numbers_of(pieces.drop_last());
        match parsed_unsigned(pieces.last(), u32::MAX as nat) {
            Some(n) => before.push(n),
            None => before,
        }
    }
}

/// The pieces of `s` between the characters that are no digits.
pub open spec fn digit_runs(s: Seq<char>) -> Seq<Seq<char>> {
    split_where(s, |c: char| !is_digit(c))
}

/// The height and the width that the metadata text `s` states.
pub open spec fn stated_size(s: Seq<char>) -> Option<(nat, nat)> {
    let numbers = numbers_of(digit_runs(s));
    if numbers.len() >= 2 {
        Some((numbers[0], numbers[1]))
    } else if numbers.len() == 1 {
        Some((numbers[0], numbers[0]))
    } else {
        None
    }
}

/// The text of an optional string.
pub open spec fn text_of(s: Option<&str>) -> Option<Seq<char>> {
    match s {
        Some(s) => Some(s@),
        None => None,
    }
}

/// The class names of a model with the metadata entry `names`.
pub open spec fn class_names_of(names: Option<Seq<char>>) -> Seq<Seq<char>> {
    match names {
        Some(s) => match listed_names(s) {
            Some(labels) => labels,
            None => fallback_classes(),
        },
        None => fallback_classes(),
    }
}

/// The height and the width of a model with the metadata entry `imgsz`.
pub open spec fn size_of(imgsz: Option<Seq<char>>) -> (nat, nat) {
    let fallback = (FALLBACK_IMGSZ as nat, FALLBACK_IMGSZ as nat);
    match imgsz {
        Some(s) => match stated_size(s) {
            Some(size) => size,
            None => fallback,
        },
        None => fallback,
    }
}

/// The number of channels of a model with the metadata entry `channels`.
pub open spec fn channels_of(channels: Option<Seq<char>>) -> nat {
    match channels {
        Some(s) => match parsed_unsigned(trimmed(s), usize::MAX as nat) {
            Some(n) => if n > 0 {
                n
            } else {
                3
            },
            None => 3,
        },
        None => 3,
    }
}

proof fn lemma_piece_grows(s: Seq<char>, start: int, i: int)
    requires
        0 <= start <= i < s.len(),
        digit_runs(s.take(i)).last() == s.subrange(start, i),
    ensures
        is_digit(s[i]) ==> {
            &&& digit_runs(s.take(i + 1)).drop_last() == digit_runs(s.take(i)).drop_last()
            &&& digit_runs(s.take(i + 1)).last() == s.subrange(start, i + 1)
        },
        !is_digit(s[i]) ==> {
            &&& digit_runs(s.take(i + 1)).drop_last() == digit_runs(s.take(i))
            &&& digit_runs(s.take(i + 1)).last() == s.subrange(i + 1, i + 1)
        },
{
    let before = digit_runs(s.take(i));
    let more = s.take(i + 1);
    lemma_split_where_not_empty(s.take(i), |c: char| !is_digit(c));
    assert(more.drop_last() =~= s.take(i));
    assert(more.last() == s[i]);
    if is_digit(s[i]) {
        let grown = before.drop_last().push(before.last().push(s[i]));
        assert(digit_runs(more) == grown);
        assert(grown.drop_last() =~= before.drop_last());
        assert(s.subrange(start, i + 1) =~= s.subrange(start, i).push(s[i]));
    } else {
        let grown = before.push(Seq::empty());
        assert(digit_runs(more) == grown);
        assert(grown.drop_last() =~= before);
        assert(s.subrange(i + 1, i + 1) =~= Seq::empty());
    }
}

/// Appends the number that the digits at `start..end` spell, if there is one.
fn push_number(numbers: &mut Vec<u32>, chars: &Vec<char>, start: usize, end: usize)
    requires
        start <= end <= chars@.len(),
        all_digits(chars@.subrange(start as int, end as int)),
    ensures
        as_nats(final(numbers)@) == (match parsed_unsigned(
            chars@.subrange(start as int, end as int),
            u32::MAX as nat,
        ) {
            Some(n) => as_nats(old(numbers)@).push(n),
            None => as_nats(old(numbers)@),
        }),
{
    let ghost piece = chars@.subrange(start as int, end as int);
    if start < end {
        assert(is_digit(piece[0]));
        match read_digits(chars, start, end, u32::MAX as u64) {
            Some(n) => {
                numbers.push(n as u32);
                assert(as_nats(numbers@) =~= as_nats(old(numbers)@).push(n as nat));
            },
            None => {},
        }
    }
}

/// A list of machine numbers as mathematical ones.
pub open spec fn as_nats(numbers: Seq<u32>) -> Seq<nat> {
    numbers.map_values(|n: u32| n as nat)
}

/// Parses the `imgsz` metadata, e.g. `[640, 640]` or `640`, into the height and the width.
pub fn parse_imgsz(raw: &str) -> (out: Option<(u32, u32)>)
    ensures
        match out {
            Some(size) => stated_size(raw@) == Some((size.0 as nat, size.1 as nat)),
            None => stated_size(raw@) is None,
        },
{
    let chars: Vec<char> = chars_of(raw);
    let mut numbers: Vec<u32> = Vec::new();
    let mut start: usize = 0;
    let mut i: usize = 0;
    let ghost s = chars@;
    proof {
        assert(s.take(0) =~= Seq::empty());
        assert(digit_runs(s.take(0)) == seq![Seq::<char>::empty()]);
        assert(digit_runs(s.take(0)).drop_last() =~= Seq::empty());
        assert(s.subrange(0, 0) =~= Seq::empty());
        assert(as_nats(numbers@) =~= Seq::empty());
    }
    while i < chars.len()
        invariant
            s == chars@,
            start <= i <= s.len(),
            all_digits(s.subrange(start as int, i as int)),
            digit_runs(s.take(i as int)).last() == s.subrange(start as int, i as int),
            as_nats(numbers@) == numbers_of(digit_runs(s.take(i as int)).drop_last()),
        decreases s.len() - i,
    {
        proof {
            lemma_piece_grows(s, start as int, i as int);
            lemma_split_where_not_empty(s.take(i as int), |c: char| !is_digit(c));
            assert forall|k: int| 0 <= k < i + 1 - start && is_digit(s[i as int]) implies is_digit(
                #[trigger] s.subrange(start as int, i + 1)[k],
            ) by {
                if k < i - start {
                    assert(is_digit(s.subrange(start as int, i as int)[k]));
                }
            }
        }
        if !('0' <= chars[i] && chars[i] <= '9') {
            push_number(&mut numbers, &chars, start, i);
            start = i + 1;
        }
        i = i + 1;
    }
    proof {
        lemma_split_where_not_empty(s, |c: char| !is_digit(c));
        assert(s.take(i as int) =~= s);
    }
    push_number(&mut numbers, &chars, start, i);
    let ghost all = numbers_of(digit_runs(s));
    assert(as_nats(numbers@) == all);
    assert(numbers@.len() == all.len());
    assert(forall|k: int| 0 <= k < all.len() ==> all[k] == #[trigger] numbers@[k]);
    if numbers.len() >= 2 {
        Some((numbers[0], numbers[1]))
    } else if numbers.len() == 1 {
        Some((numbers[0], numbers[0]))
    } else {
        None
    }
}

fn fallback_class_names() -> (out: Vec<String>)
    ensures
        texts(out@) == fallback_classes(),
{
    let mut out: Vec<String> = Vec::new();
    out.push("manta".to_owned());
    out.push("non_fish".to_owned());
    out.push("other_fish".to_owned());
    assert(texts(out@) =~= fallback_classes());
    out
}

proof fn lemma_listed_names_not_empty(s: Seq<char>)
    ensures
        match listed_names(s) {
            Some(labels) => labels.len() > 0,
            None => true,
        },
{
    if let Some(pairs) = labels_from(s, 0) {
        crate::names::ordering_is_a_stable_sort(pairs);
    }
}

/// Reads the metadata entries `names`, `imgsz` and `channels` of a model and the name of its
/// first input. Each one that is missing or cannot be read has a fallback.
pub fn read_model_info(
    names: Option<&str>,
    imgsz: Option<&str>,
    channels: Option<&str>,
    first_input: Option<&str>,
) -> (model: ModelInfo)
    ensures
        texts(model.class_names@) == class_names_of(text_of(names)),
        model.height == size_of(text_of(imgsz)).0,
        model.width == size_of(text_of(imgsz)).1,
        model.channels == channels_of(text_of(channels)),
        model.input_name@ == (match first_input {
            Some(name) => name@,
            None => "images"@,
        }),
        model.class_names@.len() > 0,
        model.channels > 0,
{
    let class_names: Vec<String> = match names {
        Some(raw) => {
            proof {
                lemma_listed_names_not_empty(raw@);
            }
            match parse_names(raw) {
                Some(listed) => listed,
                None => fallback_class_names(),
            }
        },
        None => fallback_class_names(),
    };
    proof {
        assert(texts(class_names@).len() == class_names@.len());
        assert(fallback_classes().len() == 3);
    }
    let size: (u32, u32) = match imgsz {
        Some(raw) => match parse_imgsz(raw) {
            Some(size) => size,
            None => (FALLBACK_IMGSZ, FALLBACK_IMGSZ),
        },
        None => (FALLBACK_IMGSZ, FALLBACK_IMGSZ),
    };
    let channel_count: usize = match channels {
        Some(raw) => match parse_unsigned(&trim(&chars_of(raw)), usize::MAX as u64) {
            Some(n) => if n > 0 {
                n as usize
            } else {
                3
            },
            None => 3,
        },
        None => 3,
    };
    let input_name: String = match first_input {
        Some(name) => name.to_owned(),
        None => "images".to_owned(),
    };
    ModelInfo {
        class_names,
        width: size.1,
        height: size.0,
        channels: channel_count,
        input_name,
    }
}

proof fn lemma_runs_after_digits(s: Seq<char>, digits: Seq<char>)
    requires
        all_digits(digits),
    ensures
        digit_runs(s + digits) == digit_runs(s).drop_last().push(digit_runs(s).last() + digits),
    decreases digits.len(),
{
    lemma_split_where_not_empty(s, |c: char| !is_digit(c));
    if digits.len() == 0 {
        assert(s + digits =~= s);
        assert(digit_runs(s).last() + digits =~= digit_runs(s).last());
        assert(digit_runs(s).drop_last().push(digit_runs(s).last()) =~= digit_runs(s));
    } else {
        let fewer = digits.drop_last();
        assert(all_digits(fewer)) by {
            assert forall|i: int| 0 <= i < fewer.len() implies is_digit(#[trigger] fewer[i]) by {
                assert(fewer[i] == digits[i]);
            }
        }
        lemma_runs_after_digits(s, fewer);
        assert((s + digits).drop_last() =~= s + fewer);
        assert((s + digits).last() == digits.last());
        assert(is_digit(digits[digits.len() - 1]));
        let before = digit_runs(s + fewer);
        assert(before.drop_last() =~= digit_runs(s).drop_last());
        assert((digit_runs(s).last() + fewer).push(digits.last()) =~= digit_runs(s).last()
            + digits);
    }
}

proof fn lemma_runs_after_other(s: Seq<char>, c: char)
    requires
        !is_digit(c),
    ensures
        digit_runs(s.push(c)) == digit_runs(s).push(Seq::empty()),
{
    assert(s.push(c).drop_last() =~= s);
}

proof fn lemma_number_of_piece(pieces: Seq<Seq<char>>, n: nat)
    requires
        n <= u32::MAX,
    ensures
        numbers_of(pieces.push(decimal(n))) == numbers_of(pieces).push(n),
        numbers_of(pieces.push(Seq::empty())) == numbers_of(pieces),
{
    decimal_spells_its_number(n);
    assert(is_digit(decimal(n)[0]));
    assert(pieces.push(decimal(n)).drop_last() =~= pieces);
    assert(pieces.push(Seq::empty()).drop_last() =~= pieces);
}

/// A single number states a square; a bracketed pair states the height and then the width.
pub proof fn stated_sizes_are_read_back(height: nat, width: nat)
    requires
        height <= u32::MAX,
        width <= u32::MAX,
    ensures
        stated_size(decimal(height)) == Some((height, height)),
        stated_size(seq!['['] + decimal(height) + seq![',', ' '] + decimal(width) + seq![']'])
            == Some((height, width)),
{
    let none = Seq::<Seq<char>>::empty();
    let empty = Seq::<char>::empty();
    decimal_spells_its_number(height);
    decimal_spells_its_number(width);
    assert(digit_runs(empty) == seq![empty]);
    assert(digit_runs(empty).drop_last() =~= none);
    lemma_runs_after_digits(empty, decimal(height));
    assert(empty + decimal(height) =~= decimal(height));
    lemma_number_of_piece(none, height);
    assert(digit_runs(decimal(height)) =~= none.push(decimal(height)));
    assert(numbers_of(none) =~= Seq::<nat>::empty());

    let open = empty.push('[');
    lemma_runs_after_other(empty, '[');
    lemma_runs_after_digits(open, decimal(height));
    let one = open + decimal(height);
    assert(digit_runs(open) =~= none.push(empty).push(empty));
    assert(digit_runs(one) =~= none.push(empty).push(decimal(height)));
    lemma_runs_after_other(one, ',');
    lemma_runs_after_other(one.push(','), ' ');
    let between = one.push(',').push(' ');
    assert(digit_runs(between) =~= none.push(empty).push(decimal(height)).push(empty).push(empty));
    lemma_runs_after_digits(between, decimal(width));
    let two = between + decimal(width);
    assert(digit_runs(two) =~= none.push(empty).push(decimal(height)).push(empty).push(
        decimal(width),
    ));
    lemma_runs_after_other(two, ']');
    lemma_number_of_piece(none, height);
    lemma_number_of_piece(none.push(empty), height);
    lemma_number_of_piece(none.push(empty).push(decimal(height)), height);
    lemma_number_of_piece(none.push(empty).push(decimal(height)).push(empty), width);
    lemma_number_of_piece(
        none.push(empty).push(decimal(height)).push(empty).push(decimal(width)),
        width,
    );
    assert(two.push(']') =~= seq!['['] + decimal(height) + seq![',', ' '] + decimal(width)
        + seq![']']);
}

proof fn lemma_runs_around_other(a: Seq<char>, c: char, b: Seq<char>)
    requires
        !is_digit(c),
    ensures
        digit_runs(a + seq![c] + b) == digit_runs(a) + digit_runs(b),
    decreases b.len(),
{
    let is_other = |c: char| !is_digit(c);
    if b.len() == 0 {
        assert(a + seq![c] + b =~= a.push(c));
        lemma_runs_after_other(a, c);
        assert(digit_runs(b) =~= seq![Seq::<char>::empty()]);
        assert(digit_runs(a) + digit_runs(b) =~= digit_runs(a).push(Seq::empty()));
    } else {
        let whole = a + seq![c] + b;
        let front = b.drop_last();
        lemma_runs_around_other(a, c, front);
        lemma_split_where_not_empty(front, is_other);
        assert(whole.drop_last() =~= a + seq![c] + front);
        assert(whole.last() == b.last());
        let before = digit_runs(a) + digit_runs(front);
        assert(before.last() == digit_runs(front).last());
        assert(before.drop_last() =~= digit_runs(a) + digit_runs(front).drop_last());
        assert(digit_runs(whole) =~= digit_runs(a) + digit_runs(b));
    }
}

proof fn lemma_numbers_of_both(p: Seq<Seq<char>>, q: Seq<Seq<char>>)
    ensures
        numbers_of(p + q) == numbers_of(p) + numbers_of(q),
    decreases q.len(),
{
    if q.len() == 0 {
        assert(p + q =~= p);
        assert(numbers_of(p) + numbers_of(q) =~= numbers_of(p));
    } else {
        assert((p + q).drop_last() =~= p + q.drop_last());
        assert((p + q).last() == q.last());
        lemma_numbers_of_both(p, q.drop_last());
        assert(numbers_of(p + q) =~= numbers_of(p) + numbers_of(q));
    }
}

proof fn lemma_no_number()
    ensures
        numbers_of(seq![Seq::<char>::empty()]) == Seq::<nat>::empty(),
{
    let piece = seq![Seq::<char>::empty()];
    assert(piece.drop_last() =~= Seq::<Seq<char>>::empty());
    assert(numbers_of(piece.drop_last()) == Seq::<nat>::empty());
    assert(piece.last() == Seq::<char>::empty());
}

/// The numbers in a text without digits, a run of digits, and a rest that does not go on with
/// digits.
proof fn lemma_first_number(lead: Seq<char>, digits: Seq<char>, rest: Seq<char>)
    requires
        forall|i: int| 0 <= i < lead.len() ==> !is_digit(#[trigger] lead[i]),
        all_digits(digits),
        rest.len() > 0 ==> !is_digit(rest[0]),
    ensures
        numbers_of(digit_runs(lead + digits + rest)) == numbers_of(seq![digits]) + (if rest.len()
            == 0 {
            Seq::<nat>::empty()
        } else {
            numbers_of(digit_runs(rest.skip(1)))
        }),
    decreases lead.len(),
{
    let empty = Seq::<char>::empty();
    if lead.len() > 0 {
        let fewer = lead.skip(1);
        lemma_runs_around_other(empty, lead[0], fewer + digits + rest);
        assert(empty + seq![lead[0]] + (fewer + digits + rest) =~= lead + digits + rest);
        assert forall|i: int| 0 <= i < fewer.len() implies !is_digit(#[trigger] fewer[i]) by {
            assert(fewer[i] == lead[i + 1]);
        }
        lemma_first_number(fewer, digits, rest);
        let tail = digit_runs(fewer + digits + rest);
        assert(digit_runs(empty) =~= seq![empty]);
        lemma_numbers_of_both(seq![empty], tail);
        lemma_no_number();
        assert(numbers_of(seq![empty]) + numbers_of(tail) =~= numbers_of(tail));
    } else {
        lemma_runs_after_digits(empty, digits);
        assert(digit_runs(empty) =~= seq![empty]);
        assert(empty + digits =~= digits);
        assert(digit_runs(digits) =~= seq![digits]);
        if rest.len() > 0 {
            lemma_runs_around_other(digits, rest[0], rest.skip(1));
            assert(digits + seq![rest[0]] + rest.skip(1) =~= lead + digits + rest);
            lemma_numbers_of_both(seq![digits], digit_runs(rest.skip(1)));
        } else {
            assert(lead + digits + rest =~= digits);
            assert(numbers_of(seq![digits]) + Seq::<nat>::empty() =~= numbers_of(seq![digits]));
        }
    }
}

proof fn lemma_number_alone(n: nat)
    ensures
        numbers_of(seq![decimal(n)]) == (if n <= u32::MAX {
            seq![n]
        } else {
            Seq::<nat>::empty()
        }),
{
    crate::text::numbers_are_read_back(n, u32::MAX as nat);
    assert(seq![decimal(n)].drop_last() =~= Seq::<Seq<char>>::empty());
    assert(numbers_of(seq![decimal(n)].drop_last()) =~= Seq::<nat>::empty());
    assert(Seq::<nat>::empty().push(n) =~= seq![n]);
}

/// A model whose entry states two numbers has them as its height and its width, whatever stands
/// around them, and whatever follows.
pub proof fn stated_pair_is_the_size(
    lead: Seq<char>,
    height: nat,
    between: Seq<char>,
    width: nat,
    rest: Seq<char>,
)
    requires
        height <= u32::MAX,
        width <= u32::MAX,
        between.len() > 0,
        forall|i: int| 0 <= i < lead.len() ==> !(48 <= #[trigger] lead[i] as int <= 57),
        forall|i: int| 0 <= i < between.len() ==> !(48 <= #[trigger] between[i] as int <= 57),
        rest.len() > 0 ==> !(48 <= rest[0] as int <= 57),
    ensures
        size_of(Some(lead + decimal(height) + between + decimal(width) + rest)) == (height, width),
{
    let s = lead + decimal(height) + between + decimal(width) + rest;
    let inner = between.skip(1);
    let after = between + decimal(width) + rest;
    decimal_spells_its_number(height);
    decimal_spells_its_number(width);
    assert(after[0] == between[0]);
    assert(s =~= lead + decimal(height) + after);
    assert(after.skip(1) =~= inner + decimal(width) + rest);
    assert forall|i: int| 0 <= i < inner.len() implies !is_digit(#[trigger] inner[i]) by {
        assert(inner[i] == between[i + 1]);
    }
    lemma_first_number(lead, decimal(height), after);
    lemma_first_number(inner, decimal(width), rest);
    lemma_number_alone(height);
    lemma_number_alone(width);
    let numbers = numbers_of(digit_runs(s));
    assert(numbers[0] == height && numbers[1] == width);
}

/// A model whose entry states one number is a square of that size. Where it states none, or only
/// numbers that do not fit, or there is no entry, the size is 640 by 640.
pub proof fn stated_number_is_a_square(lead: Seq<char>, n: nat, tail: Seq<char>)
    requires
        forall|i: int| 0 <= i < lead.len() ==> !(48 <= #[trigger] lead[i] as int <= 57),
        forall|i: int| 0 <= i < tail.len() ==> !(48 <= #[trigger] tail[i] as int <= 57),
    ensures
        size_of(Some(lead + decimal(n) + tail)) == (if n <= u32::MAX {
            (n, n)
        } else {
            (640nat, 640nat)
        }),
        size_of(Some(lead)) == (640nat, 640nat),
        size_of(None) == (640nat, 640nat),
{
    let none = Seq::<char>::empty();
    decimal_spells_its_number(n);
    lemma_first_number(lead, decimal(n), tail);
    lemma_number_alone(n);
    lemma_first_number(lead, none, none);
    assert(lead + none + none =~= lead);
    lemma_no_number();
    if tail.len() > 0 {
        let inner = tail.skip(1);
        assert forall|i: int| 0 <= i < inner.len() implies !is_digit(#[trigger] inner[i]) by {
            assert(inner[i] == tail[i + 1]);
        }
        lemma_first_number(inner, none, none);
        assert(inner + none + none =~= inner);
    }
    assert(numbers_of(digit_runs(lead + decimal(n) + tail)) =~= numbers_of(seq![decimal(n)]));
}

/// A model that states a number of channels has as many, white space around the number or not.
/// Where it states none, nothing that fits, or zero, it has three.
pub proof fn stated_channels_are_the_channels(before: Seq<char>, n: nat, after: Seq<char>)
    requires
        forall|i: int| 0 <= i < before.len() ==> is_space(#[trigger] before[i]),
        forall|i: int| 0 <= i < after.len() ==> is_space(#[trigger] after[i]),
    ensures
        channels_of(Some(before + decimal(n) + after)) == (if 0 < n <= usize::MAX {
            n
        } else {
            3nat
        }),
        channels_of(None) == 3,
{
    decimal_spells_its_number(n);
    let digits = decimal(n);
    assert(is_digit(digits[0]) && is_digit(digits[digits.len() - 1]));
    crate::text::trimming_takes_the_ends(before, digits, after);
    crate::text::numbers_are_read_back(n, usize::MAX as nat);
}

/// What is no number states no channels.
pub proof fn other_text_states_no_channels(
    before: Seq<char>,
    core: Seq<char>,
    after: Seq<char>,
    i: int,
)
    requires
        forall|i: int| 0 <= i < before.len() ==> is_space(#[trigger] before[i]),
        forall|i: int| 0 <= i < after.len() ==> is_space(#[trigger] after[i]),
        0 <= i < core.len(),
        !is_space(core[0]),
        !is_space(core.last()),
        !(48 <= core[i] as int <= 57),
        i > 0 || core[i] != '+',
    ensures
        channels_of(Some(before + core + after)) == 3,
{
    crate::text::trimming_takes_the_ends(before, core, after);
    crate::text::only_digits_are_read(core, usize::MAX as nat);
}

/// A model that lists its classes has those; one that lists none has the three fallback classes.
pub proof fn listed_classes_are_the_classes(
    labels: Seq<Seq<char>>,
    quotes: Seq<char>,
    other: Seq<char>,
)
    requires
        0 < labels.len() <= usize::MAX,
        quotes.len() == labels.len(),
        forall|i: int|
            0 <= i < labels.len() ==> (#[trigger] quotes[i] == '\'' || quotes[i] == '"')
                && !labels[i].contains(quotes[i]),
        forall|i: int| 0 <= i < other.len() ==> !(48 <= #[trigger] other[i] as int <= 57),
    ensures
        class_names_of(Some(dict_text(labels, quotes))) == labels,
        class_names_of(Some(other)) == seq!["manta"@, "non_fish"@, "other_fish"@],
        class_names_of(None) == seq!["manta"@, "non_fish"@, "other_fish"@],
{
    assert forall|i: int| 0 <= i < labels.len() implies crate::names::is_quote(
        #[trigger] quotes[i],
    ) && !labels[i].contains(quotes[i]) by {}
    crate::names::listed_classes_are_read_back(labels, quotes);
    crate::names::text_without_digits_lists_nothing(other);
}

} // verus!
