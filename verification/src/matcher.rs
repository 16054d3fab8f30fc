//! Bracket matching: which loop-open instruction belongs to which loop-close.
//!
//! The pairing is defined over the nesting depth of the program text, with
//! no reference to how it is computed.

use std::collections::HashMap;
use vstd::prelude::*;

verus! {

/// The loop-open instruction, `[`.
pub const OPEN: u8 = 0x5b;

/// The loop-close instruction, `]`.
pub const CLOSE: u8 = 0x5d;

/// How one instruction changes the nesting depth.
pub open spec fn delta(c: u8) -> int {
    if c == OPEN {
        1
    } else if c == CLOSE {
        -1
    } else {
        0
    }
}

/// Opens minus closes among the first `i` instructions of `code`.
pub open spec fn depth(code: Seq<u8>, i: int) -> int
    decreases i,
{
    if i <= 0 {
        0
    } else {
        depth(code, i - 1) + delta(code[i - 1])
    }
}

/// No prefix of length at most `upto` closes more loops than it opens.
pub open spec fn never_negative(code: Seq<u8>, upto: int) -> bool {
    forall|k: int| 0 <= k <= upto ==> depth(code, k) >= 0
}

/// No prefix of `code` closes more loops than it opens, and the whole of it
/// closes all that it opens.
pub open spec fn balanced(code: Seq<u8>) -> bool {
    never_negative(code, code.len() as int) && depth(code, code.len() as int) == 0
}

/// The `[` at `i` and the `]` at `j` delimit one loop: the depth returns to
/// its value before `i` right after `j`, and not earlier.
pub open spec fn matched(code: Seq<u8>, i: int, j: int) -> bool {
    &&& 0 <= i < j < code.len()
    &&& code[i] == OPEN
    &&& code[j] == CLOSE
    &&& depth(code, j + 1) == depth(code, i)
    &&& forall|k: int| i < k <= j ==> depth(code, k) > depth(code, i)
}

/// Positions `p` and `q` hold the two brackets of one loop, in either order.
pub open spec fn paired(code: Seq<u8>, p: int, q: int) -> bool {
    matched(code, p, q) || matched(code, q, p)
}

/// A bracket has at most one partner.
pub proof fn lemma_partner_unique(code: Seq<u8>, p: int, q1: int, q2: int)
    requires
        paired(code, p, q1),
        paired(code, p, q2),
    ensures
        q1 == q2,
{
    if code[p] == OPEN {
        if q1 < q2 {
            assert(depth(code, q1 + 1) > depth(code, p));
        } else if q2 < q1 {
            assert(depth(code, q2 + 1) > depth(code, p));
        }
    } else {
        if q1 < q2 {
            assert(depth(code, q2) > depth(code, q1));
        } else if q2 < q1 {
            assert(depth(code, q1) > depth(code, q2));
        }
    }
}

/// Whether the bracket at `p` has a partner at all.
pub open spec fn has_partner(code: Seq<u8>, p: int) -> bool {
    exists|q: int| paired(code, p, q)
}

/// The position of the bracket that belongs to the one at `p`.
pub open spec fn partner(code: Seq<u8>, p: int) -> int {
    choose|q: int| paired(code, p, q)
}

/// The jump table of a program: every bracket that has a partner, mapped to
/// the position of that partner.
pub open spec fn jump_table(code: Seq<u8>) -> Map<usize, usize> {
    Map::new(|p: usize| has_partner(code, p as int), |p: usize| partner(code, p as int) as usize)
}

/// The `]` at `at` is the first one that closes a loop nobody opened.
pub open spec fn stray_close_at(code: Seq<u8>, at: int) -> bool {
    &&& 0 <= at < code.len()
    &&& code[at] == CLOSE
    &&& depth(code, at) == 0
    &&& never_negative(code, at)
}

/// No `]` is stray, and at the end of the program a loop is still open.
pub open spec fn open_left_over(code: Seq<u8>) -> bool {
    never_negative(code, code.len() as int) && depth(code, code.len() as int) > 0
}

/// Why a program has no jump table.
#[derive(Clone, Copy, Debug, PartialEq, Eq)]
pub enum SyntaxError {
    /// The `]` at byte position `at` has no `[` before it to close.
    UnmatchedClose { at: usize },
    /// The program ends inside a loop.
    UnmatchedOpen,
}

impl SyntaxError {
    /// This error is the one that `code` has.
    pub open spec fn diagnoses(self, code: Seq<u8>) -> bool {
        match self {
            SyntaxError::UnmatchedClose { at } => stray_close_at(code, at as int),
            SyntaxError::UnmatchedOpen => open_left_over(code),
        }
    }
}

/// A program is balanced or has exactly one error, never both.
pub proof fn lemma_diagnosis_unique(code: Seq<u8>, e1: SyntaxError, e2: SyntaxError)
    requires
        e1.diagnoses(code),
    ensures
        !balanced(code),
        e2.diagnoses(code) ==> e1 == e2,
{
    match e1 {
        SyntaxError::UnmatchedClose { at } => {
            assert(depth(code, at + 1) < 0);
            if let SyntaxError::UnmatchedClose { at: other } = e2 {
                if e2.diagnoses(code) {
                    assert(depth(code, other + 1) < 0);
                }
            }
        },
        SyntaxError::UnmatchedOpen => {
            if let SyntaxError::UnmatchedClose { at: other } = e2 {
                if e2.diagnoses(code) {
                    assert(depth(code, other + 1) < 0);
                }
            }
        },
    }
}

/// The error that a program has is its only one, and such a program is not
/// balanced.
pub proof fn lemma_only_error(code: Seq<u8>, e: SyntaxError)
    requires
        e.diagnoses(code),
    ensures
        !balanced(code),
        forall|other: SyntaxError| #[trigger] other.diagnoses(code) ==> other == e,
{
    assert forall|other: SyntaxError| #[trigger] other.diagnoses(code) implies other == e by {
        lemma_diagnosis_unique(code, e, other);
    }
    lemma_diagnosis_unique(code, e, e);
}

/// A balanced program has no error.
pub proof fn lemma_balanced_has_no_error(code: Seq<u8>)
    requires
        balanced(code),
    ensures
        forall|e: SyntaxError| !#[trigger] e.diagnoses(code),
{
    assert forall|e: SyntaxError| !#[trigger] e.diagnoses(code) by {
        if e.diagnoses(code) {
            lemma_diagnosis_unique(code, e, e);
        }
    }
}

/// Walking right from a `[` whose loop is still open at `k`, the loop closes.
proof fn lemma_find_close(code: Seq<u8>, p: int, k: int)
    requires
        balanced(code),
        0 <= p < k <= code.len(),
        code[p] == OPEN,
        forall|m: int| p < m <= k ==> depth(code, m) > depth(code, p),
    ensures
        exists|j: int| matched(code, p, j),
    decreases code.len() - k,
{
    assert(depth(code, p) >= 0);
    assert(depth(code, k) > depth(code, p));
    if k < code.len() {
        if depth(code, k + 1) > depth(code, p) {
            lemma_find_close(code, p, k + 1);
        } else {
            assert(matched(code, p, k));
        }
    }
}

/// Walking left from a `]`, its loop turns out to have been opened.
proof fn lemma_find_open(code: Seq<u8>, p: int, k: int)
    requires
        balanced(code),
        0 <= k <= p < code.len(),
        code[p] == CLOSE,
        forall|m: int| k <= m <= p ==> #[trigger] depth(code, m) > depth(code, p + 1),
    ensures
        exists|i: int| matched(code, i, p),
    decreases k,
{
    assert(depth(code, p + 1) >= 0);
    assert(depth(code, k) > depth(code, p + 1));
    if k > 0 {
        if depth(code, k - 1) > depth(code, p + 1) {
            lemma_find_open(code, p, k - 1);
        } else {
            assert(matched(code, k - 1, p));
        }
    }
}

/// In a balanced program every bracket has a partner, so the jump table is
/// total over the bracket positions.
pub proof fn lemma_jump_table_total(code: Seq<u8>, p: usize)
    requires
        balanced(code),
        p < code.len(),
        code[p as int] == OPEN || code[p as int] == CLOSE,
    ensures
        jump_table(code).contains_key(p),
{
    if code[p as int] == OPEN {
        lemma_find_close(code, p as int, p + 1);
        let j = choose|j: int| matched(code, p as int, j);
        assert(paired(code, p as int, j));
    } else {
        lemma_find_open(code, p as int, p as int);
        let i = choose|i: int| matched(code, i, p as int);
        assert(paired(code, p as int, i));
    }
}

/// Every entry of the jump table is one half of a mutual pair: it leads from
/// a `[` to the later `]` of the same loop or from a `]` back to its `[`,
/// and the partner's entry leads back.
pub proof fn lemma_jump_table_mutual(code: Seq<u8>, p: usize)
    requires
        code.len() <= usize::MAX,
        jump_table(code).contains_key(p),
    ensures
        ({
            let q = jump_table(code)[p];
            &&& paired(code, p as int, q as int)
            &&& code[p as int] == OPEN ==> p < q < code.len() && code[q as int] == CLOSE
            &&& code[p as int] == CLOSE ==> q < p < code.len() && code[q as int] == OPEN
            &&& jump_table(code).contains_key(q)
            &&& jump_table(code)[q] == p
        }),
{
    let q = partner(code, p as int);
    assert(paired(code, p as int, q));
    assert(paired(code, q, p as int));
    lemma_partner_unique(code, q, p as int, partner(code, q));
}

/// The two brackets of a loop are each other's entry in the jump table.
pub proof fn lemma_jump_table_entry(code: Seq<u8>, open: usize, close: usize)
    requires
        matched(code, open as int, close as int),
    ensures
        jump_table(code).contains_key(open),
        jump_table(code).contains_key(close),
        jump_table(code)[open] == close,
        jump_table(code)[close] == open,
{
    assert(paired(code, open as int, close as int));
    assert(paired(code, close as int, open as int));
    lemma_partner_unique(code, open as int, close as int, partner(code, open as int));
    lemma_partner_unique(code, close as int, open as int, partner(code, close as int));
}

/// In a balanced program, following the jump table twice from any bracket
/// leads back to that bracket.
pub proof fn lemma_jump_table_involution(code: Seq<u8>, p: usize)
    requires
        balanced(code),
        code.len() <= usize::MAX,
        p < code.len(),
        code[p as int] == OPEN || code[p as int] == CLOSE,
    ensures
        jump_table(code).contains_key(p),
        jump_table(code).contains_key(jump_table(code)[p]),
        jump_table(code)[jump_table(code)[p]] == p,
{
    lemma_jump_table_total(code, p);
    lemma_jump_table_mutual(code, p);
}

/// Up to any point, either no prefix has gone negative or a first stray `]`
/// lies before that point.
proof fn lemma_first_stray(code: Seq<u8>, upto: int)
    requires
        0 <= upto <= code.len(),
    ensures
        never_negative(code, upto) || exists|at: int| 0 <= at < upto && stray_close_at(code, at),
    decreases upto,
{
    if upto > 0 {
        lemma_first_stray(code, upto - 1);
        if never_negative(code, upto - 1) && depth(code, upto) < 0 {
            assert(depth(code, upto - 1) >= 0);
            assert(stray_close_at(code, upto - 1));
        }
    }
}

/// A `]` that finds no loop open makes the program fail: that `]` or an
/// earlier one is the first stray `]`.
pub proof fn lemma_stray_close_found(code: Seq<u8>, i: int)
    requires
        0 <= i < code.len(),
        code[i] == CLOSE,
        depth(code, i) <= 0,
    ensures
        exists|at: int| 0 <= at <= i && stray_close_at(code, at),
{
    lemma_first_stray(code, i + 1);
    assert(depth(code, i + 1) < 0);
}

/// Every program is balanced, or has a first stray `]`, or ends inside a loop.
pub proof fn lemma_diagnosis_exists(code: Seq<u8>)
    ensures
        balanced(code) || open_left_over(code) || exists|at: int| stray_close_at(code, at),
{
    lemma_first_stray(code, code.len() as int);
}

/// The `[` at `s` is still open after the first `i` instructions, `q` loops deep.
spec fn pending(code: Seq<u8>, s: int, q: int, i: int) -> bool {
    &&& 0 <= s < i
    &&& code[s] == OPEN
    &&& depth(code, s) == q
    &&& forall|k: int| s < k <= i ==> depth(code, k) > q
}

/// The bracket at `p` and its partner both lie among the first `i` instructions.
spec fn settled(code: Seq<u8>, p: int, i: int) -> bool {
    exists|q: int| paired(code, p, q) && p < i && q < i
}

/// Reading instruction `i` settles exactly the two brackets of the loop it
/// closes, if it closes one.
proof fn lemma_settled_step(code: Seq<u8>, p: int, i: int, start: int)
    requires
        0 <= i < code.len(),
        code[i] == CLOSE ==> matched(code, start, i),
    ensures
        settled(code, p, i + 1) <==> settled(code, p, i) || (code[i] == CLOSE && (p == start || p
            == i)),
{
    if settled(code, p, i + 1) {
        let q = choose|q: int| paired(code, p, q) && p < i + 1 && q < i + 1;
        if p < i && q < i {
            assert(settled(code, p, i));
        } else if q == i {
            lemma_partner_unique(code, i, p, start);
        }
    }
    if settled(code, p, i) {
        let q = choose|q: int| paired(code, p, q) && p < i && q < i;
        assert(paired(code, p, q) && p < i + 1 && q < i + 1);
    }
    if code[i] == CLOSE && p == start {
        assert(paired(code, p, i) && p < i + 1 && i < i + 1);
    }
    if code[i] == CLOSE && p == i {
        assert(paired(code, p, start) && p < i + 1 && start < i + 1);
    }
}

/// Pairs the brackets of `code` in one pass from left to right.
///
/// The result is the jump table of the program if and only if the program is
/// balanced; otherwise it is the one error that the program has.
pub fn match_brackets(code: &[u8]) -> (r: Result<HashMap<usize, usize>, SyntaxError>)
    ensures
        match r {
            Ok(table) => balanced(code@) && table@ == jump_table(code@),
            Err(e) => e.diagnoses(code@),
        },
        balanced(code@) ==> r is Ok,
        forall|e: SyntaxError| #[trigger]
            e.diagnoses(code@) ==> r == Err::<HashMap<usize, usize>, SyntaxError>(e),
{
    broadcast use vstd::std_specs::hash::group_hash_axioms;

    let n = code.len();
    let mut table: HashMap<usize, usize> = HashMap::new();
    let mut stack: Vec<usize> = Vec::new();
    let mut i: usize = 0;
    while i < n
        invariant
            n == code@.len(),
            i <= n,
            never_negative(code@, i as int),
            stack@.len() == depth(code@, i as int),
            forall|q: int|
                0 <= q < stack@.len() ==> #[trigger] pending(code@, stack@[q] as int, q, i as int),
            forall|p: usize| table@.contains_key(p) <==> settled(code@, p as int, i as int),
            forall|p: usize|
                table@.contains_key(p) ==> paired(code@, p as int, #[trigger] table@[p] as int),
        decreases n - i,
    {
        let c = code[i];
        let ghost earlier = stack@;
        let ghost mut start_of_loop: int = 0;
        if c == OPEN {
            stack.push(i);
        } else if c == CLOSE {
            match stack.pop() {
                Some(start) => {
                    table.insert(start, i);
                    table.insert(i, start);
                    proof {
                        start_of_loop = start as int;
                        assert(pending(code@, start as int, stack@.len() as int, i as int));
                        assert(matched(code@, start as int, i as int));
                    }
                },
                None => {
                    proof {
                        lemma_only_error(code@, SyntaxError::UnmatchedClose { at: i });
                    }
                    return Err(SyntaxError::UnmatchedClose { at: i });
                },
            }
        }
        proof {
            assert forall|p: usize| table@.contains_key(p) <==> settled(
                code@,
                p as int,
                i + 1,
            ) by {
                lemma_settled_step(code@, p as int, i as int, start_of_loop);
            }
            assert forall|q: int| 0 <= q < stack@.len() implies #[trigger] pending(
                code@,
                stack@[q] as int,
                q,
                i + 1,
            ) by {
                if q < earlier.len() {
                    assert(pending(code@, earlier[q] as int, q, i as int));
                }
            }
        }
        i += 1;
    }
    if stack.len() == 0 {
        proof {
            lemma_balanced_has_no_error(code@);
            assert forall|p: usize| table@.contains_key(p) implies table@[p] == partner(
                code@,
                p as int,
            ) as usize by {
                lemma_partner_unique(code@, p as int, table@[p] as int, partner(code@, p as int));
            }
            assert forall|p: usize| table@.contains_key(p) <==> has_partner(code@, p as int) by {
                if has_partner(code@, p as int) {
                    let q = choose|q: int| paired(code@, p as int, q);
                    assert(paired(code@, p as int, q) && p < n && q < n);
                }
            }
            assert(table@ =~= jump_table(code@));
        }
        Ok(table)
    } else {
        proof {
            lemma_only_error(code@, SyntaxError::UnmatchedOpen);
        }
        Err(SyntaxError::UnmatchedOpen)
    }
}

} // verus!
