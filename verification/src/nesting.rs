//! The loop structure of an opcode stream, as mathematics.
//!
//! A source text is read as a sequence of characters. Only eight of them carry
//! meaning; the rest is commentary. The loop delimiters `[` and `]` among the
//! meaningful ones must nest. This module says what that means, through the
//! nesting depth of each prefix, and proves that the delimiters of a balanced stream
//! pair up in exactly one way.

use vstd::prelude::*;

verus! {

/// Whether `c` is one of the eight characters that carry meaning.
pub open spec fn is_opcode(c: char) -> bool {
    c == '>' || c == '<' || c == '+' || c == '-' || c == '.' || c == ',' || c == '[' || c == ']'
}

/// The source with its commentary dropped: the opcodes, in their order.
pub open spec fn opcodes(source: Seq<char>) -> Seq<char> {
    source.filter(|c: char| is_opcode(c))
}

/// What one character adds to the nesting depth.
pub open spec fn delta(c: char) -> int {
    if c == '[' {
        1
    } else if c == ']' {
        -1
    } else {
        0
    }
}

/// The number of `[` minus the number of `]` among the first `n` characters.
pub open spec fn depth(ops: Seq<char>, n: int) -> int
    decreases n,
{
    if n <= 0 {
        0
    } else {
        depth(ops, n - 1) + delta(ops[n - 1])
    }
}

/// No prefix closes more loops than it opened, and the whole closes all of them.
pub open spec fn balanced(ops: Seq<char>) -> bool {
    &&& forall|n: int| 0 <= n <= ops.len() ==> depth(ops, n) >= 0
    &&& depth(ops, ops.len() as int) == 0
}

/// The `[` at `open` and the `]` at `close` delimit one loop: right after `close`
/// the depth is back, for the first time, to what it was before `open`.
pub open spec fn is_pair(ops: Seq<char>, open: int, close: int) -> bool {
    &&& 0 <= open < close < ops.len()
    &&& ops[open] == '['
    &&& ops[close] == ']'
    &&& depth(ops, close + 1) == depth(ops, open)
    &&& forall|k: int| open < k <= close ==> depth(ops, k) > depth(ops, open)
}

/// The position in `ops` of the delimiter that forms a loop with the one at `i`. Where
/// the delimiter at `i` has no partner, nothing is known of it.
pub open spec fn partner(ops: Seq<char>, i: int) -> int {
    if ops[i] == '[' {
        choose|close: int| is_pair(ops, i, close)
    } else {
        choose|open: int| is_pair(ops, open, i)
    }
}

/// The `]` at `p` is the first one that closes a loop which was never opened.
pub open spec fn is_unmatched_end(ops: Seq<char>, p: int) -> bool {
    &&& 0 <= p < ops.len()
    &&& ops[p] == ']'
    &&& depth(ops, p) == 0
    &&& forall|n: int| 0 <= n <= p ==> depth(ops, n) >= 0
}

/// No `]` is unmatched, and the `[` at `p` is the first one that is never closed.
pub open spec fn is_unclosed_start(ops: Seq<char>, p: int) -> bool {
    &&& 0 <= p < ops.len()
    &&& ops[p] == '['
    &&& depth(ops, p) == 0
    &&& forall|n: int| 0 <= n <= p ==> depth(ops, n) >= 0
    &&& forall|n: int| p < n <= ops.len() ==> depth(ops, n) > 0
}

/// A `[` has at most one partner.
pub proof fn lemma_close_unique(ops: Seq<char>, open: int, a: int, b: int)
    requires
        is_pair(ops, open, a),
        is_pair(ops, open, b),
    ensures
        a == b,
{
    if a < b {
        assert(depth(ops, a + 1) > depth(ops, open));
    } else if b < a {
        assert(depth(ops, b + 1) > depth(ops, open));
    }
}

/// A `]` has at most one partner.
pub proof fn lemma_open_unique(ops: Seq<char>, a: int, b: int, close: int)
    requires
        is_pair(ops, a, close),
        is_pair(ops, b, close),
    ensures
        a == b,
{
    if a < b {
        assert(depth(ops, b) > depth(ops, a));
    } else if b < a {
        assert(depth(ops, a) > depth(ops, b));
    }
}

/// In a balanced opcode stream every `[` has a partner.
pub proof fn lemma_loop_start_has_partner(ops: Seq<char>, open: int)
    requires
        balanced(ops),
        0 <= open < ops.len(),
        ops[open] == '[',
    ensures
        is_pair(ops, open, partner(ops, open)),
{
    let close = lemma_first_return(ops, open, open + 1);
    assert(is_pair(ops, open, close));
}

/// If the depth stays above its value before `open` from `open + 1` through `from`,
/// and is not above that value at the end of the stream, then at `from` or later
/// there is a first `]` after which the depth is back at that value.
proof fn lemma_first_return(ops: Seq<char>, open: int, from: int) -> (close: int)
    requires
        0 <= open < from <= ops.len(),
        forall|k: int| open < k <= from ==> depth(ops, k) > depth(ops, open),
        depth(ops, ops.len() as int) <= depth(ops, open),
    ensures
        from <= close < ops.len(),
        ops[close] == ']',
        depth(ops, close + 1) == depth(ops, open),
        forall|k: int| open < k <= close ==> depth(ops, k) > depth(ops, open),
    decreases ops.len() - from,
{
    assert(depth(ops, from + 1) == depth(ops, from) + delta(ops[from]));
    if depth(ops, from + 1) > depth(ops, open) {
        lemma_first_return(ops, open, from + 1)
    } else {
        from
    }
}

/// In a balanced opcode stream every `]` has a partner.
pub proof fn lemma_loop_end_has_partner(ops: Seq<char>, close: int)
    requires
        balanced(ops),
        0 <= close < ops.len(),
        ops[close] == ']',
    ensures
        is_pair(ops, partner(ops, close), close),
{
    assert(depth(ops, close + 1) == depth(ops, close) + delta(ops[close]));
    let open = lemma_last_rise(ops, close, close);
    assert(is_pair(ops, open, close));
}

/// If the depth stays above its value after `close` from `upto` through `close`, and
/// that value is not negative, then below `upto` there is a last `[` before which the
/// depth is at that value.
proof fn lemma_last_rise(ops: Seq<char>, close: int, upto: int) -> (open: int)
    requires
        0 <= upto <= close < ops.len(),
        depth(ops, close + 1) >= 0,
        forall|k: int| upto <= k <= close ==> #[trigger] depth(ops, k) > depth(ops, close + 1),
    ensures
        0 <= open < upto,
        ops[open] == '[',
        depth(ops, open) == depth(ops, close + 1),
        forall|k: int| open < k <= close ==> #[trigger] depth(ops, k) > depth(ops, close + 1),
    decreases upto,
{
    assert(depth(ops, upto) == depth(ops, upto - 1) + delta(ops[upto - 1]));
    if depth(ops, upto - 1) > depth(ops, close + 1) {
        lemma_last_rise(ops, close, upto - 1)
    } else {
        upto - 1
    }
}

/// Two loops are disjoint or one lies inside the other: they never cross.
pub proof fn lemma_pairs_do_not_cross(ops: Seq<char>, a: int, b: int, c: int, d: int)
    requires
        is_pair(ops, a, b),
        is_pair(ops, c, d),
        a < c,
    ensures
        b < c || d < b,
{
    if c < b && b <= d {
        // `c` lies inside the first loop, so it is deeper than `a` ...
        assert(depth(ops, c) > depth(ops, a));
        // ... and the second loop stays above `c` up to `d`, which `b + 1` would break.
        if b < d {
            assert(depth(ops, b + 1) > depth(ops, c));
        } else {
            assert(depth(ops, c) == depth(ops, a));
        }
    }
}

/// At most one position is the first unmatched `]`.
pub proof fn lemma_unmatched_end_unique(ops: Seq<char>, p: int, q: int)
    requires
        is_unmatched_end(ops, p),
        is_unmatched_end(ops, q),
    ensures
        p == q,
{
    if p < q {
        assert(depth(ops, p + 1) >= 0);
    } else if q < p {
        assert(depth(ops, q + 1) >= 0);
    }
}

/// At most one position is the first unclosed `[`.
pub proof fn lemma_unclosed_start_unique(ops: Seq<char>, p: int, q: int)
    requires
        is_unclosed_start(ops, p),
        is_unclosed_start(ops, q),
    ensures
        p == q,
{
    if p < q {
        assert(depth(ops, q) > 0);
    } else if q < p {
        assert(depth(ops, p) > 0);
    }
}

/// An opcode stream is balanced, or has a first unmatched `]`, or has a first
/// unclosed `[`: exactly one of the three.
pub proof fn lemma_three_outcomes(ops: Seq<char>)
    ensures
        balanced(ops) <==> !(exists|p: int| is_unmatched_end(ops, p)) && !(exists|p: int|
            is_unclosed_start(ops, p)),
        !((exists|p: int| is_unmatched_end(ops, p)) && (exists|p: int| is_unclosed_start(ops, p))),
{
    if exists|p: int| is_unmatched_end(ops, p) {
        let p = choose|p: int| is_unmatched_end(ops, p);
        assert(depth(ops, p + 1) < 0);
        if exists|q: int| is_unclosed_start(ops, q) {
            let q = choose|q: int| is_unclosed_start(ops, q);
            if q < p {
                assert(depth(ops, p + 1) > 0);
            } else {
                assert(depth(ops, p + 1) >= 0);
            }
        }
    } else if exists|q: int| is_unclosed_start(ops, q) {
        let q = choose|q: int| is_unclosed_start(ops, q);
        assert(depth(ops, ops.len() as int) > 0);
    } else {
        lemma_never_negative(ops, ops.len() as int);
        if depth(ops, ops.len() as int) > 0 {
            let q = lemma_last_return_to_zero(ops, ops.len() as int);
            assert(is_unclosed_start(ops, q));
        }
    }
}

/// Without a first unmatched `]` no prefix has a negative depth.
proof fn lemma_never_negative(ops: Seq<char>, n: int)
    requires
        0 <= n <= ops.len(),
        !(exists|p: int| is_unmatched_end(ops, p)),
    ensures
        forall|k: int| 0 <= k <= n ==> depth(ops, k) >= 0,
    decreases n,
{
    if n > 0 {
        lemma_never_negative(ops, n - 1);
        if depth(ops, n) < 0 {
            assert(depth(ops, n - 1) >= 0);
            assert(depth(ops, n) == depth(ops, n - 1) + delta(ops[n - 1]));
            assert(is_unmatched_end(ops, n - 1));
        }
    }
}

/// Where the depth is positive after `n` characters and never negative before, some
/// `[` below `n` starts at depth zero and keeps the depth positive up to `n`.
proof fn lemma_last_return_to_zero(ops: Seq<char>, n: int) -> (q: int)
    requires
        0 <= n <= ops.len(),
        depth(ops, n) > 0,
        forall|k: int| 0 <= k <= n ==> depth(ops, k) >= 0,
    ensures
        0 <= q < n,
        ops[q] == '[',
        depth(ops, q) == 0,
        forall|k: int| q < k <= n ==> depth(ops, k) > 0,
    decreases n,
{
    if depth(ops, n - 1) == 0 {
        n - 1
    } else {
        lemma_last_return_to_zero(ops, n - 1)
    }
}

} // verus!
