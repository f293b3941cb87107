//! The class names in the metadata of a model.
use vstd::prelude::*;

use crate::text::{chars_of, is_space_char, read_digits, string_of};
#[allow(unused_imports)]
use crate::text::{
    all_digits, decimal, decimal_spells_its_number, decimal_value, is_digit, is_space, texts,
};

verus! {

/// Where the run of digits that starts at `i` ends.
pub open spec fn digits_end(s: Seq<char>, i: int) -> int
    decreases s.len() + 1 - i,
{
    if 0 <= i < s.len() && is_digit(s[i]) {
        digits_end(s, i + 1)
    } else {
        i
    }
}

/// What may stand between an index and its label: white space and colons.
pub open spec fn is_gap(c: char) -> bool {
    is_space(c) || c == ':'
}

/// Where the run of white space and colons that starts at `i` ends.
pub open spec fn gap_end(s: Seq<char>, i: int) -> int
    decreases s.len() + 1 - i,
{
    if 0 <= i < s.len() && is_gap(s[i]) {
        gap_end(s, i + 1)
    } else {
        i
    }
}

/// The first position from `i` on that holds `c`, or the length of `s`.
pub open spec fn position_of(s: Seq<char>, i: int, c: char) -> int
    decreases s.len() + 1 - i,
{
    if 0 <= i < s.len() && s[i] != c {
        position_of(s, i + 1, c)
    } else {
        i
    }
}

pub open spec fn is_quote(c: char) -> bool {
    c == '\'' || c == '"'
}

pub proof fn lemma_runs_advance(s: Seq<char>, i: int, c: char)
    requires
        0 <= i <= s.len(),
    ensures
        i <= digits_end(s, i) <= s.len(),
        i <= gap_end(s, i) <= s.len(),
        i <= position_of(s, i, c) <= s.len(),
        i < s.len() && is_digit(s[i]) ==> i < digits_end(s, i),
        all_digits(s.subrange(i, digits_end(s, i))),
    decreases s.len() + 1 - i,
{
    if i < s.len() {
        lemma_runs_advance(s, i + 1, c);
        if is_digit(s[i]) {
            let run = s.subrange(i, digits_end(s, i));
            let rest = s.subrange(i + 1, digits_end(s, i));
            assert forall|k: int| 0 <= k < run.len() implies is_digit(#[trigger] run[k]) by {
                if k > 0 {
                    assert(run[k] == rest[k - 1]);
                }
            }
        }
    }
}

/// The numbered labels that `s` lists from position `i` on: each run of digits that is followed,
/// after white space and colons, by a label in single or double quotes. A label whose closing
/// quote is missing reaches to the end. `None` if a number is too large for an index.
pub open spec fn labels_from(s: Seq<char>, i: int) -> Option<Seq<(nat, Seq<char>)>>
    decreases s.len() + 1 - i,
{
    if i < 0 || i >= s.len() {
        Some(Seq::empty())
    } else if !is_digit(s[i]) {
        labels_from(s, i + 1)
    } else {
        proof {
            lemma_runs_advance(s, i, ' ');
            lemma_runs_advance(s, digits_end(s, i), ' ');
            let quote = gap_end(s, digits_end(s, i));
            if quote < s.len() {
                lemma_runs_advance(s, quote + 1, s[quote]);
            }
        }
        let index = decimal_value(s.subrange(i, digits_end(s, i)));
        let quote = gap_end(s, digits_end(s, i));
        if index > usize::MAX {
            None
        } else if quote < s.len() && is_quote(s[quote]) {
            let close = position_of(s, quote + 1, s[quote]);
            match labels_from(s, close + 1) {
                Some(rest) => Some(seq![(index, s.subrange(quote + 1, close))] + rest),
                None => None,
            }
        } else {
            labels_from(s, quote)
        }
    }
}

/// `pairs` with `pair` put behind every pair whose index is not larger.
pub open spec fn insert_by_index(
    pairs: Seq<(nat, Seq<char>)>,
    pair: (nat, Seq<char>),
) -> Seq<(nat, Seq<char>)>
    decreases pairs.len(),
{
    if pairs.len() > 0 && pairs.last().0 > pair.0 {
        insert_by_index(pairs.drop_last(), pair).push(pairs.last())
    } else {
        pairs.push(pair)
    }
}

/// `pairs` in ascending order of their indices; pairs of one index keep their order.
pub open spec fn ordered_by_index(pairs: Seq<(nat, Seq<char>)>) -> Seq<(nat, Seq<char>)>
    decreases pairs.len(),
{
    if pairs.len() == 0 {
        pairs
    } else {
        insert_by_index(ordered_by_index(pairs.drop_last()), pairs.last())
    }
}

/// The labels of `pairs`.
pub open spec fn labels_of(pairs: Seq<(nat, Seq<char>)>) -> Seq<Seq<char>> {
    pairs.map_values(|pair: (nat, Seq<char>)| pair.1)
}

/// The class names that the metadata text `s` lists, in the order of their class indices.
pub open spec fn listed_names(s: Seq<char>) -> Option<Seq<Seq<char>>> {
    match labels_from(s, 0) {
        Some(pairs) => if pairs.len() == 0 {
            None
        } else {
            Some(labels_of(ordered_by_index(pairs)))
        },
        None => None,
    }
}

/// The numbered labels that a list of pairs holds.
pub open spec fn pair_views(pairs: Seq<(usize, String)>) -> Seq<(nat, Seq<char>)> {
    pairs.map_values(|pair: (usize, String)| (pair.0 as nat, pair.1@))
}

fn find_labels(chars: &Vec<char>) -> (out: Option<Vec<(usize, String)>>)
    ensures
        match out {
            Some(pairs) => labels_from(chars@, 0) == Some(pair_views(pairs@)),
            None => labels_from(chars@, 0) is None,
        },
{
    let mut pairs: Vec<(usize, String)> = Vec::new();
    let mut i: usize = 0;
    let n: usize = chars.len();
    let ghost s = chars@;
    assert(pair_views(pairs@) =~= Seq::empty());
    while i < n
        invariant
            n == s.len(),
            s == chars@,
            i <= n,
            match labels_from(s, i as int) {
                Some(rest) => labels_from(s, 0) == Some(pair_views(pairs@) + rest),
                None => labels_from(s, 0) is None,
            },
        decreases n - i,
    {
        if !('0' <= chars[i] && chars[i] <= '9') {
            i = i + 1;
            continue ;
        }
        let start: usize = i;
        proof {
            lemma_runs_advance(s, start as int, ' ');
            lemma_runs_advance(s, digits_end(s, start as int), ' ');
        }
        while i < n && '0' <= chars[i] && chars[i] <= '9'
            invariant
                n == s.len(),
                s == chars@,
                start <= i <= n,
                digits_end(s, start as int) == digits_end(s, i as int),
            decreases n - i,
        {
            i = i + 1;
        }
        let index: usize = match read_digits(chars, start, i, usize::MAX as u64) {
            Some(value) => value as usize,
            None => {
                return None;
            },
        };
        let ghost after = i as int;
        while i < n && (is_space_char(chars[i]) || chars[i] == ':')
            invariant
                n == s.len(),
                s == chars@,
                after <= i <= n,
                gap_end(s, after) == gap_end(s, i as int),
            decreases n - i,
        {
            i = i + 1;
        }
        if i < n && (chars[i] == '\'' || chars[i] == '"') {
            let quote: char = chars[i];
            i = i + 1;
            let label_start: usize = i;
            proof {
                lemma_runs_advance(s, label_start as int, quote);
            }
            while i < n && chars[i] != quote
                invariant
                    n == s.len(),
                    s == chars@,
                    label_start <= i <= n,
                    position_of(s, label_start as int, quote) == position_of(s, i as int, quote),
                decreases n - i,
            {
                i = i + 1;
            }
            let ghost found = pair_views(pairs@);
            pairs.push((index, string_of(chars, label_start, i)));
            proof {
                let pair = (index as nat, s.subrange(label_start as int, i as int));
                assert(pair_views(pairs@) =~= found.push(pair));
                if let Some(rest) = labels_from(s, i + 1) {
                    assert(found + (seq![pair] + rest) =~= found.push(pair) + rest);
                }
            }
            if i < n {
                i = i + 1;
            }
        }
    }
    assert(pair_views(pairs@) + Seq::empty() =~= pair_views(pairs@));
    Some(pairs)
}

proof fn lemma_insert_position(pairs: Seq<(nat, Seq<char>)>, pair: (nat, Seq<char>), at: int)
    requires
        0 <= at <= pairs.len(),
        forall|k: int| at <= k < pairs.len() ==> (#[trigger] pairs[k]).0 > pair.0,
        at > 0 ==> pairs[at - 1].0 <= pair.0,
    ensures
        insert_by_index(pairs, pair) == pairs.insert(at, pair),
    decreases pairs.len(),
{
    if at < pairs.len() {
        assert(pairs.last() == pairs[pairs.len() - 1]);
        lemma_insert_position(pairs.drop_last(), pair, at);
        assert(pairs.drop_last().insert(at, pair).push(pairs.last()) =~= pairs.insert(at, pair));
    } else {
        assert(pairs.push(pair) =~= pairs.insert(at, pair));
    }
}

fn order_pairs(pairs: &Vec<(usize, String)>) -> (out: Vec<(usize, String)>)
    ensures
        pair_views(out@) == ordered_by_index(pair_views(pairs@)),
{
    let mut out: Vec<(usize, String)> = Vec::new();
    let mut k: usize = 0;
    let ghost views = pair_views(pairs@);
    assert(pair_views(out@) =~= Seq::empty());
    assert(views.take(0) =~= Seq::empty());
    while k < pairs.len()
        invariant
            k <= pairs@.len(),
            views == pair_views(pairs@),
            pair_views(out@) == ordered_by_index(views.take(k as int)),
        decreases pairs@.len() - k,
    {
        let index: usize = pairs[k].0;
        let label: String = pairs[k].1.clone();
        let mut at: usize = out.len();
        while at > 0 && out[at - 1].0 > index
            invariant
                at <= out@.len(),
                forall|j: int| at <= j < out@.len() ==> (#[trigger] out@[j]).0 > index,
            decreases at,
        {
            at = at - 1;
        }
        proof {
            let placed = pair_views(out@);
            let pair = (index as nat, label@);
            assert(views.take(k + 1).drop_last() =~= views.take(k as int));
            assert(views.take(k + 1).last() == pair);
            assert forall|j: int| at <= j < placed.len() implies (#[trigger] placed[j]).0
                > pair.0 by {
                assert(placed[j].0 == out@[j].0);
            }
            lemma_insert_position(placed, pair, at as int);
            assert(pair_views(out@.insert(at as int, (index, label))) =~= placed.insert(
                at as int,
                pair,
            ));
        }
        out.insert(at, (index, label));
        k = k + 1;
    }
    assert(views.take(k as int) =~= views);
    out
}

/// Parses the `names` metadata, e.g. `{0: 'manta', 1: 'non_manta'}`, into the class names in the
/// order of their indices.
pub fn parse_names(raw: &str) -> (out: Option<Vec<String>>)
    ensures
        match out {
            Some(names) => listed_names(raw@) == Some(texts(names@)),
            None => listed_names(raw@) is None,
        },
{
    let chars: Vec<char> = chars_of(raw);
    let pairs: Vec<(usize, String)> = match find_labels(&chars) {
        Some(pairs) => pairs,
        None => {
            return None;
        },
    };
    assert(pair_views(pairs@).len() == pairs@.len());
    if pairs.len() == 0 {
        return None;
    }
    let ordered: Vec<(usize, String)> = order_pairs(&pairs);
    let mut names: Vec<String> = Vec::new();
    let mut k: usize = 0;
    while k < ordered.len()
        invariant
            k <= ordered@.len(),
            names@.len() == k,
            forall|j: int| 0 <= j < k ==> (#[trigger] names@[j])@ == ordered@[j].1@,
        decreases ordered@.len() - k,
    {
        names.push(ordered[k].1.clone());
        k = k + 1;
    }
    assert(texts(names@) =~= labels_of(pair_views(ordered@)));
    Some(names)
}

/// One entry of a `names` listing as it is written.
pub struct Listed {
    /// What stands before the index.
    pub lead: Seq<char>,
    pub index: nat,
    /// What stands between the index and the label.
    pub gap: Seq<char>,
    /// The quote before and behind the label.
    pub quote: char,
    pub label: Seq<char>,
}

pub open spec fn entry_text(entry: Listed) -> Seq<char> {
    entry.lead + decimal(entry.index) + entry.gap + seq![entry.quote] + entry.label + seq![
        entry.quote,
    ]
}

/// A listing of entries, with `tail` behind the last one.
pub open spec fn listing_text(entries: Seq<Listed>, tail: Seq<char>) -> Seq<char>
    decreases entries.len(),
{
    if entries.len() == 0 {
        tail
    } else {
        entry_text(entries[0]) + listing_text(entries.skip(1), tail)
    }
}

pub open spec fn without_digits(s: Seq<char>) -> bool {
    forall|j: int| 0 <= j < s.len() ==> !is_digit(#[trigger] s[j])
}

/// Whether an entry is well written: no digit before the index, an index that fits a `usize`,
/// nothing but white space and colons before the label, and a label without its own quote.
pub open spec fn is_listable(entry: Listed) -> bool {
    &&& without_digits(entry.lead)
    &&& entry.index <= usize::MAX
    &&& forall|j: int| 0 <= j < entry.gap.len() ==> is_gap(#[trigger] entry.gap[j])
    &&& is_quote(entry.quote)
    &&& !entry.label.contains(entry.quote)
}

/// The indices and labels of entries.
pub open spec fn pairs_of(entries: Seq<Listed>) -> Seq<(nat, Seq<char>)> {
    entries.map_values(|entry: Listed| (entry.index, entry.label))
}

proof fn lemma_digits_end(s: Seq<char>, i: int, k: int)
    requires
        0 <= i <= k < s.len(),
        forall|j: int| i <= j < k ==> is_digit(#[trigger] s[j]),
        !is_digit(s[k]),
    ensures
        digits_end(s, i) == k,
    decreases k - i,
{
    if i < k {
        lemma_digits_end(s, i + 1, k);
    }
}

proof fn lemma_gap_end(s: Seq<char>, i: int, k: int)
    requires
        0 <= i <= k < s.len(),
        forall|j: int| i <= j < k ==> is_gap(#[trigger] s[j]),
        !is_gap(s[k]),
    ensures
        gap_end(s, i) == k,
    decreases k - i,
{
    if i < k {
        lemma_gap_end(s, i + 1, k);
    }
}

proof fn lemma_position_of(s: Seq<char>, i: int, k: int, c: char)
    requires
        0 <= i <= k <= s.len(),
        forall|j: int| i <= j < k ==> #[trigger] s[j] != c,
        k < s.len() ==> s[k] == c,
    ensures
        position_of(s, i, c) == k,
    decreases k - i,
{
    if i < k {
        lemma_position_of(s, i + 1, k, c);
    }
}

proof fn lemma_other_is_passed_over(s: Seq<char>, i: int, k: int)
    requires
        0 <= i <= k <= s.len(),
        forall|j: int| i <= j < k ==> !is_digit(#[trigger] s[j]),
    ensures
        labels_from(s, i) == labels_from(s, k),
    decreases k - i,
{
    if i < k {
        lemma_other_is_passed_over(s, i + 1, k);
    }
}

proof fn lemma_entry_is_read(s: Seq<char>, i: int, entry: Listed)
    requires
        is_listable(entry),
        0 <= i,
        i + entry_text(entry).len() <= s.len(),
        forall|j: int| 0 <= j < entry_text(entry).len() ==> #[trigger] s[i + j] == entry_text(
            entry,
        )[j],
    ensures
        labels_from(s, i) == (match labels_from(s, i + entry_text(entry).len()) {
            Some(rest) => Some(seq![(entry.index, entry.label)] + rest),
            None => None,
        }),
{
    decimal_spells_its_number(entry.index);
    let text = entry_text(entry);
    let digits = decimal(entry.index);
    let first = i + entry.lead.len();
    let after = first + digits.len();
    let open = after + entry.gap.len();
    let close = open + 1 + entry.label.len();
    assert forall|j: int| i <= j < first implies !is_digit(#[trigger] s[j]) by {
        assert(s[i + (j - i)] == text[j - i]);
        assert(text[j - i] == entry.lead[j - i]);
    }
    lemma_other_is_passed_over(s, i, first);
    assert forall|j: int| first <= j < after implies #[trigger] s[j] == digits[j - first] by {
        assert(s[i + (j - i)] == text[j - i]);
    }
    assert forall|j: int| first <= j < after implies is_digit(#[trigger] s[j]) by {
        assert(is_digit(digits[j - first]));
    }
    assert forall|j: int| after <= j < open implies is_gap(#[trigger] s[j]) by {
        assert(s[i + (j - i)] == text[j - i]);
        assert(text[j - i] == entry.gap[j - after]);
    }
    assert(s[open] == entry.quote) by {
        assert(s[i + (open - i)] == text[open - i]);
    }
    if after < open {
        assert(is_gap(s[after]));
    }
    lemma_digits_end(s, first, after);
    lemma_gap_end(s, after, open);
    assert(s.subrange(first, after) =~= digits);
    assert forall|j: int| open + 1 <= j < close implies #[trigger] s[j] == entry.label[j - open
        - 1] by {
        assert(s[i + (j - i)] == text[j - i]);
    }
    assert forall|j: int| open + 1 <= j < close implies #[trigger] s[j] != entry.quote by {
        assert(entry.label.contains(entry.label[j - open - 1]));
    }
    assert(s[close] == entry.quote) by {
        assert(s[i + (close - i)] == text[close - i]);
    }
    lemma_position_of(s, open + 1, close, entry.quote);
    assert(s.subrange(open + 1, close) =~= entry.label);
    assert(close + 1 == i + text.len());
}

proof fn lemma_entries_are_read(s: Seq<char>, i: int, entries: Seq<Listed>, tail: Seq<char>)
    requires
        0 <= i <= s.len(),
        s.skip(i) == listing_text(entries, tail),
        forall|k: int| 0 <= k < entries.len() ==> is_listable(#[trigger] entries[k]),
        without_digits(tail),
    ensures
        labels_from(s, i) == Some(pairs_of(entries)),
    decreases entries.len(),
{
    if entries.len() == 0 {
        assert forall|j: int| i <= j < s.len() implies !is_digit(#[trigger] s[j]) by {
            assert(s.skip(i)[j - i] == s[j]);
        }
        lemma_other_is_passed_over(s, i, s.len() as int);
        assert(pairs_of(entries) =~= Seq::empty());
    } else {
        let text = entry_text(entries[0]);
        let rest = entries.skip(1);
        let next = i + text.len();
        assert(listing_text(entries, tail) == text + listing_text(rest, tail));
        assert forall|j: int| 0 <= j < text.len() implies #[trigger] s[i + j] == text[j] by {
            assert(s.skip(i)[j] == s[i + j]);
        }
        assert(s.skip(next) =~= listing_text(rest, tail)) by {
            assert forall|j: int| 0 <= j < s.len() - next implies s.skip(next)[j] == listing_text(
                rest,
                tail,
            )[j] by {
                assert(s.skip(i)[text.len() + j] == s[next + j]);
            }
        }
        lemma_entry_is_read(s, i, entries[0]);
        assert forall|k: int| 0 <= k < rest.len() implies is_listable(#[trigger] rest[k]) by {
            assert(rest[k] == entries[k + 1]);
        }
        lemma_entries_are_read(s, next, rest, tail);
        assert(seq![(entries[0].index, entries[0].label)] + pairs_of(rest) =~= pairs_of(entries));
    }
}

/// Reading a listing gives back the labels that it was written from, in the order of their
/// indices, whichever of the two quotes each label stands in and however much white space there
/// is.
pub proof fn listing_is_read_back(entries: Seq<Listed>, tail: Seq<char>)
    requires
        entries.len() > 0,
        forall|k: int| 0 <= k < entries.len() ==> is_listable(#[trigger] entries[k]),
        without_digits(tail),
    ensures
        labels_from(listing_text(entries, tail), 0) == Some(pairs_of(entries)),
        listed_names(listing_text(entries, tail)) == Some(
            labels_of(ordered_by_index(pairs_of(entries))),
        ),
{
    let s = listing_text(entries, tail);
    assert(s.skip(0) =~= s);
    lemma_entries_are_read(s, 0, entries, tail);
}

/// The pairs of one index.
pub open spec fn with_index(pairs: Seq<(nat, Seq<char>)>, index: nat) -> Seq<(nat, Seq<char>)> {
    pairs.filter(|pair: (nat, Seq<char>)| pair.0 == index)
}

/// Whether the indices never fall.
pub open spec fn is_ascending(pairs: Seq<(nat, Seq<char>)>) -> bool {
    forall|a: int, b: int|
        0 <= a <= b < pairs.len() ==> (#[trigger] pairs[a]).0 <= (#[trigger] pairs[b]).0
}

proof fn lemma_with_index_of_push(
    pairs: Seq<(nat, Seq<char>)>,
    pair: (nat, Seq<char>),
    index: nat,
)
    ensures
        with_index(pairs.push(pair), index) == (if pair.0 == index {
            with_index(pairs, index).push(pair)
        } else {
            with_index(pairs, index)
        }),
{
    reveal(Seq::filter);
    assert(pairs.push(pair).drop_last() =~= pairs);
}

proof fn lemma_insert_keeps_order(
    pairs: Seq<(nat, Seq<char>)>,
    pair: (nat, Seq<char>),
    index: nat,
)
    requires
        is_ascending(pairs),
    ensures
        is_ascending(insert_by_index(pairs, pair)),
        insert_by_index(pairs, pair).len() == pairs.len() + 1,
        forall|k: int|
            0 <= k < pairs.len() + 1 ==> (#[trigger] insert_by_index(pairs, pair)[k]).0 <= pair.0
                || pairs.len() > 0 && insert_by_index(pairs, pair)[k].0 <= pairs.last().0,
        with_index(insert_by_index(pairs, pair), index) == (if pair.0 == index {
            with_index(pairs, index).push(pair)
        } else {
            with_index(pairs, index)
        }),
    decreases pairs.len(),
{
    if pairs.len() > 0 && pairs.last().0 > pair.0 {
        let front = pairs.drop_last();
        lemma_insert_keeps_order(front, pair, index);
        let inner = insert_by_index(front, pair);
        lemma_with_index_of_push(inner, pairs.last(), index);
        lemma_with_index_of_push(front, pairs.last(), index);
        assert(front.push(pairs.last()) =~= pairs);
        assert forall|k: int| 0 <= k < inner.len() implies (#[trigger] inner[k]).0
            <= pairs.last().0 by {
            if front.len() > 0 {
                assert(front.last() == pairs[front.len() - 1]);
            }
        }
        if pairs.last().0 == index {
            assert(with_index(inner, index) == with_index(front, index));
        }
    } else {
        lemma_with_index_of_push(pairs, pair, index);
        assert forall|a: int, b: int|
            0 <= a <= b < pairs.push(pair).len() implies (#[trigger] pairs.push(pair)[a]).0 <= (
        #[trigger] pairs.push(pair)[b]).0 by {
            if b == pairs.len() && a < b {
                assert(pairs[a].0 <= pairs[pairs.len() - 1].0);
            }
        }
    }
}

proof fn lemma_ordering(pairs: Seq<(nat, Seq<char>)>, index: nat)
    ensures
        ordered_by_index(pairs).len() == pairs.len(),
        is_ascending(ordered_by_index(pairs)),
        with_index(ordered_by_index(pairs), index) == with_index(pairs, index),
    decreases pairs.len(),
{
    if pairs.len() > 0 {
        let front = pairs.drop_last();
        lemma_ordering(front, index);
        lemma_insert_keeps_order(ordered_by_index(front), pairs.last(), index);
        lemma_with_index_of_push(front, pairs.last(), index);
        assert(front.push(pairs.last()) =~= pairs);
    }
}

/// Ordering by index loses and adds nothing: the indices come out ascending, and the pairs of
/// each index are those that went in, in their old order.
pub proof fn ordering_is_a_stable_sort(pairs: Seq<(nat, Seq<char>)>)
    ensures
        ordered_by_index(pairs).len() == pairs.len(),
        is_ascending(ordered_by_index(pairs)),
        forall|index: nat| #[trigger]
            with_index(ordered_by_index(pairs), index) == with_index(pairs, index),
{
    lemma_ordering(pairs, 0);
    assert forall|index: nat| #[trigger]
        with_index(ordered_by_index(pairs), index) == with_index(pairs, index) by {
        lemma_ordering(pairs, index);
    }
}

proof fn lemma_ascending_stays(pairs: Seq<(nat, Seq<char>)>)
    requires
        is_ascending(pairs),
    ensures
        ordered_by_index(pairs) == pairs,
    decreases pairs.len(),
{
    if pairs.len() > 0 {
        let front = pairs.drop_last();
        assert(is_ascending(front)) by {
            assert forall|a: int, b: int| 0 <= a <= b < front.len() implies (#[trigger] front[a]).0
                <= (#[trigger] front[b]).0 by {
                assert(pairs[a].0 <= pairs[b].0);
            }
        }
        lemma_ascending_stays(front);
        if front.len() > 0 {
            assert(pairs[front.len() - 1].0 <= pairs[pairs.len() - 1].0);
        }
        assert(front.push(pairs.last()) =~= pairs);
    }
}

/// Entry `i` of a listing `{0: 'manta', 1: "ray's"}` of labels, each in a quote of its own.
pub open spec fn dict_entry(labels: Seq<Seq<char>>, quotes: Seq<char>, i: int) -> Listed {
    Listed {
        lead: if i == 0 {
            seq!['{']
        } else {
            seq![',', ' ']
        },
        index: i as nat,
        gap: seq![':', ' '],
        quote: quotes[i],
        label: labels[i],
    }
}

pub open spec fn dict_entries(labels: Seq<Seq<char>>, quotes: Seq<char>) -> Seq<Listed> {
    Seq::new(labels.len(), |i: int| dict_entry(labels, quotes, i))
}

/// The text of such a listing.
pub open spec fn dict_text(labels: Seq<Seq<char>>, quotes: Seq<char>) -> Seq<char> {
    listing_text(dict_entries(labels, quotes), seq!['}'])
}

/// The class names that a model lists under the indices 0, 1, 2 and so on are the class names
/// that are read.
pub proof fn listed_classes_are_read_back(labels: Seq<Seq<char>>, quotes: Seq<char>)
    requires
        0 < labels.len() <= usize::MAX,
        quotes.len() == labels.len(),
        forall|i: int|
            0 <= i < labels.len() ==> is_quote(#[trigger] quotes[i]) && !labels[i].contains(
                quotes[i],
            ),
    ensures
        listed_names(dict_text(labels, quotes)) == Some(labels),
{
    let entries = dict_entries(labels, quotes);
    let pairs = pairs_of(entries);
    assert(entries.len() == labels.len());
    assert forall|k: int| 0 <= k < entries.len() implies is_listable(#[trigger] entries[k]) by {
        assert(is_quote(quotes[k]));
        assert(entries[k].quote == quotes[k] && entries[k].label == labels[k]);
    }
    listing_is_read_back(entries, seq!['}']);
    assert forall|a: int, b: int| 0 <= a <= b < pairs.len() implies (#[trigger] pairs[a]).0 <= (
    #[trigger] pairs[b]).0 by {}
    lemma_ascending_stays(pairs);
    assert(labels_of(pairs) =~= labels);
}

/// A text without digits lists nothing.
pub proof fn text_without_digits_lists_nothing(s: Seq<char>)
    requires
        forall|i: int| 0 <= i < s.len() ==> !(48 <= #[trigger] s[i] as int <= 57),
    ensures
        listed_names(s) is None,
{
    lemma_other_is_passed_over(s, 0, s.len() as int);
}

/// One entry lists its label, whatever its index, whichever quotes the label stands in, and
/// whatever blanks, tabs, line ends and colons stand between the two. Of two entries the one with
/// the lesser index comes first; of two with the same index, the one that is written first.
pub proof fn entries_list_their_labels(
    lead: Seq<char>,
    i: nat,
    gap: Seq<char>,
    quote: char,
    label: Seq<char>,
    between: Seq<char>,
    j: nat,
    other_gap: Seq<char>,
    other_quote: char,
    other: Seq<char>,
    tail: Seq<char>,
)
    requires
        i <= usize::MAX,
        j <= usize::MAX,
        quote == '\'' || quote == '"',
        other_quote == '\'' || other_quote == '"',
        !label.contains(quote),
        !other.contains(other_quote),
        forall|k: int| 0 <= k < lead.len() ==> !(48 <= #[trigger] lead[k] as int <= 57),
        forall|k: int| 0 <= k < between.len() ==> !(48 <= #[trigger] between[k] as int <= 57),
        forall|k: int| 0 <= k < tail.len() ==> !(48 <= #[trigger] tail[k] as int <= 57),
        forall|k: int|
            0 <= k < gap.len() ==> #[trigger] gap[k] == ':' || gap[k] as int == 32 || 9
                <= gap[k] as int <= 13,
        forall|k: int|
            0 <= k < other_gap.len() ==> #[trigger] other_gap[k] == ':' || other_gap[k] as int == 32
                || 9 <= other_gap[k] as int <= 13,
    ensures
        listed_names(lead + decimal(i) + gap + seq![quote] + label + seq![quote] + tail) == Some(
            seq![label],
        ),
        listed_names(
            lead + decimal(i) + gap + seq![quote] + label + seq![quote] + between + decimal(j)
                + other_gap + seq![other_quote] + other + seq![other_quote] + tail,
        ) == Some(
            if j < i {
                seq![other, label]
            } else {
                seq![label, other]
            },
        ),
{
    let a = Listed { lead, index: i, gap, quote, label };
    let b = Listed {
        lead: between,
        index: j,
        gap: other_gap,
        quote: other_quote,
        label: other,
    };
    let none = Seq::<Listed>::empty();
    let none_pairs = Seq::<(nat, Seq<char>)>::empty();
    assert(is_listable(a) && is_listable(b));
    assert(seq![a].skip(1) =~= none && seq![a, b].skip(1) =~= seq![b] && seq![b].skip(1) =~= none);
    assert(listing_text(none, tail) == tail);
    assert(listing_text(seq![b], tail) == entry_text(b) + tail);
    assert(listing_text(seq![a], tail) == entry_text(a) + tail);
    assert(listing_text(seq![a, b], tail) == entry_text(a) + (entry_text(b) + tail));
    assert(listing_text(seq![a], tail) =~= lead + decimal(i) + gap + seq![quote] + label + seq![
        quote,
    ] + tail);
    assert(listing_text(seq![a, b], tail) =~= lead + decimal(i) + gap + seq![quote] + label + seq![
        quote,
    ] + between + decimal(j) + other_gap + seq![other_quote] + other + seq![other_quote] + tail);
    listing_is_read_back(seq![a], tail);
    listing_is_read_back(seq![a, b], tail);
    let one = (i, label);
    let two = (j, other);
    assert(pairs_of(seq![a]) =~= seq![one]);
    assert(pairs_of(seq![a, b]) =~= seq![one, two]);
    assert(seq![one].drop_last() =~= none_pairs && seq![one, two].drop_last() =~= seq![one]);
    assert(ordered_by_index(none_pairs) == none_pairs);
    assert(ordered_by_index(seq![one]) == insert_by_index(none_pairs, one));
    assert(ordered_by_index(seq![one]) =~= seq![one]);
    assert(ordered_by_index(seq![one, two]) == insert_by_index(seq![one], two));
    assert(insert_by_index(none_pairs, two) =~= seq![two]);
    assert(ordered_by_index(seq![one, two]) =~= if j < i {
        seq![two, one]
    } else {
        seq![one, two]
    });
    assert(labels_of(seq![one]) =~= seq![label]);
    assert(labels_of(seq![one, two]) =~= seq![label, other]);
    assert(labels_of(seq![two, one]) =~= seq![other, label]);
}

/// Labels are those of their pairs, in the same order.
pub proof fn labels_are_those_of_the_pairs(pairs: Seq<(nat, Seq<char>)>)
    ensures
        labels_of(pairs).len() == pairs.len(),
        forall|k: int|
            #![trigger labels_of(pairs)[k]]
            0 <= k < pairs.len() ==> labels_of(pairs)[k] == pairs[k].1,
{
}

proof fn lemma_nothing_without_quotes(s: Seq<char>, i: int)
    requires
        0 <= i,
        forall|k: int| 0 <= k < s.len() ==> #[trigger] s[k] != '\'' && s[k] != '"',
    ensures
        labels_from(s, i) is None || labels_from(s, i) == Some(Seq::<(nat, Seq<char>)>::empty()),
    decreases s.len() + 1 - i,
{
    if i < s.len() {
        if !is_digit(s[i]) {
            lemma_nothing_without_quotes(s, i + 1);
        } else {
            lemma_runs_advance(s, i, ' ');
            lemma_runs_advance(s, digits_end(s, i), ' ');
            lemma_nothing_without_quotes(s, gap_end(s, digits_end(s, i)));
        }
    }
}

/// A text without quotes lists nothing.
pub proof fn text_without_quotes_lists_nothing(s: Seq<char>)
    requires
        forall|k: int| 0 <= k < s.len() ==> #[trigger] s[k] != '\'' && s[k] != '"',
    ensures
        listed_names(s) is None,
{
    lemma_nothing_without_quotes(s, 0);
}

/// An index that does not fit a `usize` spoils the whole listing.
pub proof fn an_index_too_large_lists_nothing(lead: Seq<char>, n: nat, rest: Seq<char>)
    requires
        n > usize::MAX,
        forall|k: int| 0 <= k < lead.len() ==> !(48 <= #[trigger] lead[k] as int <= 57),
        rest.len() > 0,
        !(48 <= rest[0] as int <= 57),
    ensures
        listed_names(lead + decimal(n) + rest) is None,
{
    let s = lead + decimal(n) + rest;
    let first = lead.len() as int;
    let after = first + decimal(n).len();
    decimal_spells_its_number(n);
    assert forall|j: int| 0 <= j < first implies !is_digit(#[trigger] s[j]) by {
        assert(s[j] == lead[j]);
    }
    lemma_other_is_passed_over(s, 0, first);
    assert forall|j: int| first <= j < after implies is_digit(#[trigger] s[j]) by {
        assert(s[j] == decimal(n)[j - first]);
    }
    assert(s[after] == rest[0]);
    lemma_digits_end(s, first, after);
    assert(s.subrange(first, after) =~= decimal(n));
}

proof fn lemma_listing_grows(entries: Seq<Listed>, entry: Listed, tail: Seq<char>)
    ensures
        listing_text(entries.push(entry), tail) == listing_text(entries, entry_text(entry) + tail),
        listing_text(entries, tail) == listing_text(entries, Seq::empty()) + tail,
    decreases entries.len(),
{
    let none = Seq::<Listed>::empty();
    if entries.len() == 0 {
        assert(entries.push(entry).skip(1) =~= none);
        assert(listing_text(entries.push(entry), tail) == entry_text(entry) + listing_text(
            entries.push(entry).skip(1),
            tail,
        ));
        assert(Seq::<char>::empty() + tail =~= tail);
    } else {
        let rest = entries.skip(1);
        assert(entries.push(entry).skip(1) =~= rest.push(entry));
        assert(entries.push(entry)[0] == entries[0]);
        lemma_listing_grows(rest, entry, tail);
        assert(listing_text(entries, tail) =~= listing_text(entries, Seq::empty()) + tail);
    }
}

/// How a listing of classes is written: `{0: 'a'}` for one, and with `, n: 'b'` before the brace
/// for each that follows.
pub proof fn class_listings_are_written_in_turn(
    labels: Seq<Seq<char>>,
    quotes: Seq<char>,
    label: Seq<char>,
    quote: char,
)
    requires
        labels.len() == quotes.len(),
    ensures
        dict_text(seq![label], seq![quote]) == seq!['{', '0', ':', ' ', quote] + label + seq![
            quote,
            '}',
        ],
        labels.len() > 0 ==> dict_text(labels.push(label), quotes.push(quote)) == dict_text(
            labels,
            quotes,
        ).drop_last() + seq![',', ' '] + decimal(labels.len()) + seq![':', ' ', quote] + label
            + seq![quote, '}'],
{
    let one = dict_entries(seq![label], seq![quote]);
    let close = seq!['}'];
    assert(decimal(0) =~= seq!['0']);
    assert(one.skip(1) =~= Seq::empty());
    assert(listing_text(one, close) == entry_text(one[0]) + listing_text(one.skip(1), close));
    assert(dict_text(seq![label], seq![quote]) =~= seq!['{', '0', ':', ' ', quote] + label + seq![
        quote,
        '}',
    ]);
    if labels.len() > 0 {
        let entries = dict_entries(labels, quotes);
        let longer = dict_entries(labels.push(label), quotes.push(quote));
        let last = longer[labels.len() as int];
        assert(longer =~= entries.push(last));
        lemma_listing_grows(entries, last, close);
        lemma_listing_grows(entries, last, entry_text(last) + close);
        let text = listing_text(entries, Seq::empty());
        assert((text + close).drop_last() =~= text);
        assert(dict_text(labels.push(label), quotes.push(quote)) =~= text + seq![',', ' ']
            + decimal(labels.len()) + seq![':', ' ', quote] + label + seq![quote, '}']);
    }
}

proof fn lemma_runs_are_shifted(start: Seq<char>, s: Seq<char>, i: int, c: char)
    requires
        0 <= i <= s.len(),
    ensures
        digits_end(start + s, start.len() + i) == start.len() + digits_end(s, i),
        gap_end(start + s, start.len() + i) == start.len() + gap_end(s, i),
        position_of(start + s, start.len() + i, c) == start.len() + position_of(s, i, c),
    decreases s.len() - i,
{
    if i < s.len() {
        assert((start + s)[start.len() + i] == s[i]);
        lemma_runs_are_shifted(start, s, i + 1, c);
    }
}

proof fn lemma_labels_are_shifted(start: Seq<char>, s: Seq<char>, i: int)
    requires
        0 <= i,
    ensures
        labels_from(start + s, start.len() + i) == labels_from(s, i),
    decreases s.len() + 1 - i,
{
    if i < s.len() {
        let whole = start + s;
        let n = start.len() as int;
        assert(whole[n + i] == s[i]);
        if !is_digit(s[i]) {
            lemma_labels_are_shifted(start, s, i + 1);
        } else {
            lemma_runs_advance(s, i, ' ');
            lemma_runs_are_shifted(start, s, i, ' ');
            let end = digits_end(s, i);
            assert(whole.subrange(n + i, n + end) =~= s.subrange(i, end));
            lemma_runs_advance(s, end, ' ');
            lemma_runs_are_shifted(start, s, end, ' ');
            let quote = gap_end(s, end);
            if quote < s.len() {
                assert(whole[n + quote] == s[quote]);
                lemma_runs_advance(s, quote + 1, s[quote]);
                lemma_runs_are_shifted(start, s, quote + 1, s[quote]);
                let close = position_of(s, quote + 1, s[quote]);
                assert(whole.subrange(n + quote + 1, n + close) =~= s.subrange(quote + 1, close));
                lemma_labels_are_shifted(start, s, close + 1);
            }
            lemma_labels_are_shifted(start, s, quote);
        }
    }
}

/// A number that no label follows lists nothing: what stands behind it is read as if it stood
/// alone.
pub proof fn numbers_without_a_label_are_passed_over(
    lead: Seq<char>,
    n: nat,
    gap: Seq<char>,
    other: char,
    rest: Seq<char>,
)
    requires
        n <= usize::MAX,
        forall|k: int| 0 <= k < lead.len() ==> !(48 <= #[trigger] lead[k] as int <= 57),
        forall|k: int| 0 <= k < gap.len() ==> #[trigger] gap[k] == ' ' || gap[k] == ':',
        !(48 <= other as int <= 57),
        other != ':' && other != '\'' && other != '"',
        !is_space(other),
    ensures
        listed_names(lead + decimal(n) + gap + seq![other] + rest) == listed_names(rest),
{
    let before = lead + decimal(n) + gap;
    let start = before + seq![other];
    let s = start + rest;
    let first = lead.len() as int;
    let after = first + decimal(n).len();
    let open = before.len() as int;
    decimal_spells_its_number(n);
    assert forall|j: int| 0 <= j < first implies !is_digit(#[trigger] s[j]) by {
        assert(s[j] == lead[j]);
    }
    lemma_other_is_passed_over(s, 0, first);
    assert forall|j: int| first <= j < after implies is_digit(#[trigger] s[j]) by {
        assert(s[j] == decimal(n)[j - first]);
    }
    assert forall|j: int| after <= j < open implies is_gap(#[trigger] s[j]) by {
        assert(s[j] == gap[j - after]);
    }
    assert(s[open] == other);
    assert(after < open ==> s[after] == gap[0]);
    lemma_digits_end(s, first, after);
    lemma_gap_end(s, after, open);
    assert(s.subrange(first, after) =~= decimal(n));
    lemma_other_is_passed_over(s, open, open + 1);
    lemma_labels_are_shifted(start, rest, 0);
}

/// A label that is not closed reaches to the end of the text.
pub proof fn unclosed_labels_reach_to_the_end(
    lead: Seq<char>,
    n: nat,
    gap: Seq<char>,
    quote: char,
    label: Seq<char>,
)
    requires
        n <= usize::MAX,
        forall|k: int| 0 <= k < lead.len() ==> !(48 <= #[trigger] lead[k] as int <= 57),
        forall|k: int| 0 <= k < gap.len() ==> #[trigger] gap[k] == ' ' || gap[k] == ':',
        quote == '\'' || quote == '"',
        !label.contains(quote),
    ensures
        listed_names(lead + decimal(n) + gap + seq![quote] + label) == Some(seq![label]),
{
    let before = lead + decimal(n) + gap;
    let s = before + seq![quote] + label;
    let first = lead.len() as int;
    let after = first + decimal(n).len();
    let open = before.len() as int;
    let end = s.len() as int;
    decimal_spells_its_number(n);
    assert forall|j: int| 0 <= j < first implies !is_digit(#[trigger] s[j]) by {
        assert(s[j] == lead[j]);
    }
    lemma_other_is_passed_over(s, 0, first);
    assert forall|j: int| first <= j < after implies is_digit(#[trigger] s[j]) by {
        assert(s[j] == decimal(n)[j - first]);
    }
    assert forall|j: int| after <= j < open implies is_gap(#[trigger] s[j]) by {
        assert(s[j] == gap[j - after]);
    }
    assert(s[open] == quote);
    assert(after < open ==> s[after] == gap[0]);
    lemma_digits_end(s, first, after);
    lemma_gap_end(s, after, open);
    assert(s.subrange(first, after) =~= decimal(n));
    assert forall|j: int| open + 1 <= j < end implies #[trigger] s[j] != quote by {
        assert(s[j] == label[j - open - 1]);
        assert(label.contains(label[j - open - 1]));
    }
    lemma_position_of(s, open + 1, end, quote);
    assert(s.subrange(open + 1, end) =~= label);
    let pair = (n, label);
    let none = Seq::<(nat, Seq<char>)>::empty();
    assert(labels_from(s, end + 1) == Some(none));
    assert(labels_from(s, first) == Some(seq![pair] + none));
    assert(seq![pair] + none =~= seq![pair]);
    assert(seq![pair].drop_last() =~= none);
    assert(ordered_by_index(none) == none);
    assert(insert_by_index(none, pair) =~= seq![pair]);
    assert(ordered_by_index(seq![pair]) == seq![pair]);
    assert(labels_of(ordered_by_index(seq![pair])) =~= seq![label]);
}

} // verus!
