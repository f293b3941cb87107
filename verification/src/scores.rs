//! Scores and thresholds in single precision, each given as the 32 bits of its `f32`.
use vstd::prelude::*;

verus! {

/// The bits of 0.6, the threshold where nothing else is set.
pub const FALLBACK_THRESHOLD: u32 = 0x3f19_999a;

/// The bits of 1.0.
pub const ONE: u32 = 0x3f80_0000;

/// The bits of infinity, the largest magnitude that is a number.
pub const INFINITY: u32 = 0x7f80_0000;

/// The bits of negative zero: those below have a positive sign.
pub const SIGN: u32 = 0x8000_0000;

/// The place of a float in the order of the floats. The two zeros share one; what is not a number
/// has none.
pub open spec fn rank(bits: u32) -> Option<int> {
    let magnitude = (bits % SIGN) as int;
    if magnitude > INFINITY {
        None
    } else if bits < SIGN {
        Some(magnitude)
    } else {
        Some(-magnitude)
    }
}

/// The comparison `<` of floats: false where either side is not a number.
pub open spec fn is_below(a: u32, b: u32) -> bool {
    match (rank(a), rank(b)) {
        (Some(x), Some(y)) => x < y,
        _ => false,
    }
}

/// Whether a float lies between 0 and 1.
pub open spec fn in_unit_range(bits: u32) -> bool {
    match rank(bits) {
        Some(x) => 0 <= x <= ONE,
        None => false,
    }
}

/// The position of the leading score: each score replaces those before it unless it is below
/// the one that leads.
pub open spec fn leader(scores: Seq<u32>) -> int
    decreases scores.len(),
{
    if scores.len() <= 1 {
        0
    } else {
        let best = leader(scores.drop_last());
        if is_below(scores.last(), scores[best]) {
            best
        } else {
            scores.len() - 1
        }
    }
}

proof fn lemma_leader_in_range(scores: Seq<u32>)
    requires
        scores.len() > 0,
    ensures
        0 <= leader(scores) < scores.len(),
    decreases scores.len(),
{
    if scores.len() > 1 {
        lemma_leader_in_range(scores.drop_last());
    }
}

/// Among scores that are all numbers the leader is the last one of the largest.
pub proof fn leader_is_the_last_maximum(scores: Seq<u32>)
    requires
        scores.len() > 0,
        forall|i: int| 0 <= i < scores.len() ==> rank(#[trigger] scores[i]) is Some,
    ensures
        0 <= leader(scores) < scores.len(),
        forall|i: int|
            0 <= i < scores.len() ==> !is_below(scores[leader(scores)], #[trigger] scores[i]),
        forall|i: int|
            leader(scores) < i < scores.len() ==> is_below(
                #[trigger] scores[i],
                scores[leader(scores)],
            ),
    decreases scores.len(),
{
    if scores.len() > 1 {
        let front = scores.drop_last();
        assert forall|i: int| 0 <= i < front.len() implies rank(#[trigger] front[i]) is Some by {
            assert(front[i] == scores[i]);
        }
        leader_is_the_last_maximum(front);
        let best = leader(front);
        assert(front[best] == scores[best]);
        assert(rank(scores[best]) is Some);
        assert(rank(scores[scores.len() - 1]) is Some);
        assert forall|i: int| 0 <= i < scores.len() implies !is_below(
            scores[leader(scores)],
            #[trigger] scores[i],
        ) by {
            if i < front.len() {
                assert(front[i] == scores[i]);
                assert(rank(scores[i]) is Some);
            }
        }
        assert forall|i: int| leader(scores) < i < scores.len() implies is_below(
            #[trigger] scores[i],
            scores[leader(scores)],
        ) by {
            if i < front.len() {
                assert(front[i] == scores[i]);
            }
        }
    }
}

fn rank_of(bits: u32) -> (out: Option<i64>)
    ensures
        match out {
            Some(x) => rank(bits) == Some(x as int),
            None => rank(bits) is None,
        },
{
    let magnitude: u32 = bits % SIGN;
    if magnitude > INFINITY {
        None
    } else if bits < SIGN {
        Some(magnitude as i64)
    } else {
        Some(-(magnitude as i64))
    }
}

/// Compares two floats by `<`.
pub fn below(a: u32, b: u32) -> (out: bool)
    ensures
        out == is_below(a, b),
{
    match (rank_of(a), rank_of(b)) {
        (Some(x), Some(y)) => x < y,
        _ => false,
    }
}

/// The position and the value of the leading score, or zeros where there is no score.
pub fn top_class(scores: &Vec<u32>) -> (out: (usize, u32))
    ensures
        scores@.len() == 0 ==> out == (0usize, 0u32),
        scores@.len() > 0 ==> out.0 == leader(scores@) && out.0 < scores@.len() && out.1
            == scores@[out.0 as int],
{
    if scores.len() == 0 {
        return (0, 0);
    }
    let mut best: usize = 0;
    let mut i: usize = 1;
    while i < scores.len()
        invariant
            1 <= i <= scores@.len(),
            best < i,
            best == leader(scores@.take(i as int)),
        decreases scores@.len() - i,
    {
        proof {
            assert(scores@.take(i + 1).drop_last() =~= scores@.take(i as int));
            assert(scores@.take(i + 1).last() == scores@[i as int]);
            assert(scores@.take(i + 1)[best as int] == scores@[best as int]);
        }
        if !below(scores[i], scores[best]) {
            best = i;
        }
        i = i + 1;
    }
    assert(scores@.take(i as int) =~= scores@);
    (best, scores[best])
}

/// The threshold that was set when the program was built, as far as it lies between 0 and 1.
pub open spec fn built_in_threshold(baked: Option<u32>) -> u32 {
    match baked {
        Some(bits) => if in_unit_range(bits) {
            bits
        } else {
            FALLBACK_THRESHOLD
        },
        None => FALLBACK_THRESHOLD,
    }
}

/// Tests whether a float lies between 0 and 1.
pub fn is_in_unit_range(bits: u32) -> (out: bool)
    ensures
        out == in_unit_range(bits),
{
    match rank_of(bits) {
        Some(x) => 0 <= x && x <= ONE as i64,
        None => false,
    }
}

/// Chooses the built-in threshold, or 0.6 where none was set.
pub fn default_threshold(baked: Option<u32>) -> (out: u32)
    ensures
        out == built_in_threshold(baked),
        in_unit_range(out),
{
    match baked {
        Some(bits) => if is_in_unit_range(bits) {
            bits
        } else {
            FALLBACK_THRESHOLD
        },
        None => FALLBACK_THRESHOLD,
    }
}

/// Chooses the threshold of a run: the requested one, else the built-in one. `None` if the
/// requested one does not lie between 0 and 1.
pub fn run_threshold(requested: Option<u32>, baked: Option<u32>) -> (out: Option<u32>)
    ensures
        out == (match requested {
            Some(bits) => if in_unit_range(bits) {
                Some(bits)
            } else {
                None
            },
            None => Some(built_in_threshold(baked)),
        }),
        out is Some ==> in_unit_range(out->0),
{
    match requested {
        Some(bits) => if is_in_unit_range(bits) {
            Some(bits)
        } else {
            None
        },
        None => Some(default_threshold(baked)),
    }
}

/// The order of floats, by their bits. Positive floats are ordered as their bits are, negative
/// ones the other way round, and a negative one that is not zero is below any positive one. The two
/// zeros are equal. What is not a number is below nothing, and nothing is below it.
pub proof fn floats_are_ordered_by_their_bits(a: u32, b: u32)
    ensures
        a <= 0x7f80_0000 && b <= 0x7f80_0000 ==> is_below(a, b) == (a < b),
        0x8000_0000 <= a <= 0xff80_0000 && 0x8000_0000 <= b <= 0xff80_0000 ==> is_below(a, b) == (b
            < a),
        0x8000_0000 <= a <= 0xff80_0000 && b <= 0x7f80_0000 ==> is_below(a, b) == !(a == 0x8000_0000
            && b == 0) && !is_below(b, a),
        0x7f80_0000 < a < 0x8000_0000 || 0xff80_0000 < a ==> !is_below(a, b) && !is_below(b, a),
{
}

/// A float lies between 0 and 1 where its bits are at most those of 1, or it is the negative zero.
pub proof fn unit_range_by_bits(bits: u32)
    ensures
        in_unit_range(bits) == (bits <= 0x3f80_0000 || bits == 0x8000_0000),
        in_unit_range(bits) == (rank(bits) is Some && !is_below(bits, 0) && !is_below(
            0x3f80_0000,
            bits,
        )),
{
}

/// A single score leads. A further one leads unless it is below the leader, which stays in the
/// lead then.
pub proof fn a_further_score_leads_unless_it_is_below(scores: Seq<u32>, score: u32)
    ensures
        leader(seq![score]) == 0,
        scores.len() > 0 ==> leader(scores.push(score)) == (if is_below(
            score,
            scores[leader(scores)],
        ) {
            leader(scores)
        } else {
            scores.len() as int
        }),
{
    if scores.len() > 0 {
        lemma_leader_in_range(scores);
        assert(scores.push(score).drop_last() =~= scores);
    }
}

/// The built-in threshold is the one that was set where it lies between 0 and 1, else 0.6.
pub proof fn unusable_thresholds_are_replaced(bits: u32)
    ensures
        bits <= 0x3f80_0000 || bits == 0x8000_0000 ==> built_in_threshold(Some(bits)) == bits,
        0x3f80_0000 < bits && bits != 0x8000_0000 ==> built_in_threshold(Some(bits))
            == 0x3f19_999au32,
        built_in_threshold(None) == 0x3f19_999au32,
{
}

} // verus!
