//! The code-breaking solver: answers, their compact index form, the scoring of a guess
//! against a secret, and the candidate-elimination state that proposes guesses.

use vstd::prelude::*;
use vstd::arithmetic::div_mod::{
    lemma_div_by_multiple_is_strongly_ordered, lemma_div_denominator, lemma_fundamental_div_mod,
    lemma_fundamental_div_mod_converse, lemma_small_mod,
};

verus! {

/// Number of distinct symbols a peg may show.
pub const SYMBOL_COUNT: usize = 12;

/// Number of pegs in an answer.
pub const ANSWER_SIZE: usize = 4;

/// Number of distinct answers, `SYMBOL_COUNT` to the power `ANSWER_SIZE`.
pub const POSSIBLE_ANSWERS: usize = 20736;

/// Four symbols, each in `0..SYMBOL_COUNT` when the answer is valid.
pub type PossibleAnswer = [u8; ANSWER_SIZE];

/// Every peg of `a` is a known symbol.
pub open spec fn valid_answer(a: PossibleAnswer) -> bool {
    &&& a[0] < SYMBOL_COUNT
    &&& a[1] < SYMBOL_COUNT
    &&& a[2] < SYMBOL_COUNT
    &&& a[3] < SYMBOL_COUNT
}

/// The base-twelve digit `k` (least significant first) of `idx`.
pub open spec fn digit(idx: int, k: int) -> int
    recommends
        0 <= k < 4,
{
    if k == 0 {
        idx % 12
    } else if k == 1 {
        (idx / 12) % 12
    } else if k == 2 {
        (idx / 144) % 12
    } else {
        (idx / 1728) % 12
    }
}

/// The answer whose pegs are the base-twelve digits of `idx`.
pub open spec fn answer_of_index(idx: int) -> PossibleAnswer {
    [digit(idx, 0) as u8, digit(idx, 1) as u8, digit(idx, 2) as u8, digit(idx, 3) as u8]
}

/// The compact index of an answer: its pegs read as base-twelve digits.
pub open spec fn index_of_answer(a: PossibleAnswer) -> int {
    a[0] + 12 * a[1] + 144 * a[2] + 1728 * a[3]
}

/// Converts the compact index form into the four pegs.
pub fn idx_to_answer(idx: usize) -> (ans: PossibleAnswer)
    ensures
        ans == answer_of_index(idx as int),
        valid_answer(ans),
{
    [
        (idx % SYMBOL_COUNT) as u8,
        ((idx / 12) % SYMBOL_COUNT) as u8,
        ((idx / 144) % SYMBOL_COUNT) as u8,
        ((idx / 1728) % SYMBOL_COUNT) as u8,
    ]
}

/// Converts four pegs into the compact index form.
pub fn answer_to_idx(ans: PossibleAnswer) -> (idx: usize)
    requires
        valid_answer(ans),
    ensures
        idx == index_of_answer(ans),
        idx < POSSIBLE_ANSWERS,
{
    ans[0] as usize * 1 + ans[1] as usize * 12 + ans[2] as usize * 144 + ans[3] as usize * 1728
}


/// Reading the pegs of a valid answer as an index and back gives the answer again.
pub proof fn lemma_answer_index_roundtrip(a: PossibleAnswer)
    requires
        valid_answer(a),
    ensures
        answer_of_index(index_of_answer(a)) == a,
        0 <= index_of_answer(a) < POSSIBLE_ANSWERS,
{
    let idx = index_of_answer(a);
    let (a0, a1, a2, a3) = (a[0] as int, a[1] as int, a[2] as int, a[3] as int);
    lemma_fundamental_div_mod_converse(idx, 12, a1 + 12 * a2 + 144 * a3, a0);
    lemma_fundamental_div_mod_converse(a1 + 12 * a2 + 144 * a3, 12, a2 + 12 * a3, a1);
    lemma_fundamental_div_mod_converse(idx, 144, a2 + 12 * a3, a0 + 12 * a1);
    lemma_fundamental_div_mod_converse(a2 + 12 * a3, 12, a3, a2);
    lemma_fundamental_div_mod_converse(idx, 1728, a3, a0 + 12 * a1 + 144 * a2);
    lemma_fundamental_div_mod_converse(a3, 12, 0, a3);
    assert(answer_of_index(idx) =~= a);
}

/// Splitting an index below `POSSIBLE_ANSWERS` into pegs and reading them back gives the
/// index again.
pub proof fn lemma_index_answer_roundtrip(idx: int)
    requires
        0 <= idx < POSSIBLE_ANSWERS,
    ensures
        index_of_answer(answer_of_index(idx)) == idx,
        valid_answer(answer_of_index(idx)),
{
    lemma_fundamental_div_mod(idx, 12);
    lemma_fundamental_div_mod(idx / 12, 12);
    lemma_div_denominator(idx, 12, 12);
    lemma_fundamental_div_mod(idx / 144, 12);
    lemma_div_denominator(idx, 144, 12);
    assert(idx / 1728 < 12) by {
        lemma_div_by_multiple_is_strongly_ordered(idx, 20736, 12, 1728);
    }
    lemma_small_mod((idx / 1728) as nat, 12);
}

/// One when `b` holds, zero otherwise.
pub open spec fn ind(b: bool) -> nat {
    if b {
        1
    } else {
        0
    }
}

/// The smaller of two naturals.
pub open spec fn min_nat(x: nat, y: nat) -> nat {
    if x <= y {
        x
    } else {
        y
    }
}

/// How many of the first `k` pegs of `a` show symbol `sym`.
pub open spec fn count_upto(a: PossibleAnswer, sym: int, k: int) -> nat
    decreases k,
{
    if k <= 0 {
        0
    } else {
        count_upto(a, sym, k - 1) + ind(a[k - 1] == sym)
    }
}

/// How many pegs of `a` show symbol `sym`.
pub open spec fn symbol_count(a: PossibleAnswer, sym: int) -> nat {
    count_upto(a, sym, 4)
}

/// How many of the first `k` positions hold the same symbol in `a` and `b`.
pub open spec fn exact_upto(a: PossibleAnswer, b: PossibleAnswer, k: int) -> nat
    decreases k,
{
    if k <= 0 {
        0
    } else {
        exact_upto(a, b, k - 1) + ind(a[k - 1] == b[k - 1])
    }
}

/// Same symbol in the same position: the first number of a score.
pub open spec fn exact_matches(a: PossibleAnswer, b: PossibleAnswer) -> nat {
    exact_upto(a, b, 4)
}

/// Sum over the symbols below `n` of the smaller of the two counts of that symbol.
pub open spec fn common_upto(a: PossibleAnswer, b: PossibleAnswer, n: int) -> nat
    decreases n,
{
    if n <= 0 {
        0
    } else {
        common_upto(a, b, n - 1) + min_nat(symbol_count(a, n - 1), symbol_count(b, n - 1))
    }
}

/// Symbols shared by `a` and `b` regardless of position, each counted as often as it
/// occurs in both.
pub open spec fn common_symbols(a: PossibleAnswer, b: PossibleAnswer) -> nat {
    common_upto(a, b, SYMBOL_COUNT as int)
}

/// The score of `a` against `b`: pegs right in place, and pegs of a shared symbol that
/// are in the wrong place.
pub open spec fn score(a: PossibleAnswer, b: PossibleAnswer) -> (int, int) {
    (exact_matches(a, b) as int, common_symbols(a, b) - exact_matches(a, b))
}

/// Positions below `k` where both answers show symbol `sym`.
pub open spec fn matched_sym_upto(a: PossibleAnswer, b: PossibleAnswer, sym: int, k: int) -> nat
    decreases k,
{
    if k <= 0 {
        0
    } else {
        matched_sym_upto(a, b, sym, k - 1) + ind(a[k - 1] == b[k - 1] && a[k - 1] == sym)
    }
}

/// Positions below `k` where both answers show the same symbol, that symbol being below `n`.
pub open spec fn matched_below(a: PossibleAnswer, b: PossibleAnswer, n: int, k: int) -> nat
    decreases k,
{
    if k <= 0 {
        0
    } else {
        matched_below(a, b, n, k - 1) + ind(a[k - 1] == b[k - 1] && a[k - 1] < n)
    }
}

/// Sum over the symbols below `n` of the matched positions showing that symbol.
pub open spec fn matched_sum(a: PossibleAnswer, b: PossibleAnswer, n: int) -> nat
    decreases n,
{
    if n <= 0 {
        0
    } else {
        matched_sum(a, b, n - 1) + matched_sym_upto(a, b, n - 1, 4)
    }
}

proof fn lemma_matched_sym_le_counts(a: PossibleAnswer, b: PossibleAnswer, sym: int, k: int)
    ensures
        matched_sym_upto(a, b, sym, k) <= count_upto(a, sym, k),
        matched_sym_upto(a, b, sym, k) <= count_upto(b, sym, k),
    decreases k,
{
    if k > 0 {
        lemma_matched_sym_le_counts(a, b, sym, k - 1);
    }
}

proof fn lemma_matched_below_step(a: PossibleAnswer, b: PossibleAnswer, n: int, k: int)
    requires
        n >= 0,
    ensures
        matched_below(a, b, n + 1, k) == matched_below(a, b, n, k) + matched_sym_upto(a, b, n, k),
    decreases k,
{
    if k > 0 {
        lemma_matched_below_step(a, b, n, k - 1);
    }
}

proof fn lemma_matched_sum(a: PossibleAnswer, b: PossibleAnswer, n: int)
    requires
        n >= 0,
    ensures
        matched_sum(a, b, n) == matched_below(a, b, n, 4),
    decreases n,
{
    if n == 0 {
        reveal_with_fuel(matched_below, 5);
    } else {
        lemma_matched_sum(a, b, n - 1);
        lemma_matched_below_step(a, b, n - 1, 4);
    }
}

proof fn lemma_common_ge_matched(a: PossibleAnswer, b: PossibleAnswer, n: int)
    requires
        n >= 0,
    ensures
        common_upto(a, b, n) >= matched_sum(a, b, n),
    decreases n,
{
    if n > 0 {
        lemma_common_ge_matched(a, b, n - 1);
        lemma_matched_sym_le_counts(a, b, n - 1, 4);
    }
}

/// Pegs in place never outnumber the shared symbols.
pub proof fn lemma_exact_le_common(a: PossibleAnswer, b: PossibleAnswer)
    requires
        valid_answer(a),
    ensures
        exact_matches(a, b) <= common_symbols(a, b),
{
    lemma_matched_sum(a, b, 12);
    lemma_common_ge_matched(a, b, 12);
    reveal_with_fuel(matched_below, 5);
    reveal_with_fuel(exact_upto, 5);
}

/// Sum over the symbols below `n` of how often `a` shows that symbol.
pub open spec fn count_sum(a: PossibleAnswer, n: int) -> nat
    decreases n,
{
    if n <= 0 {
        0
    } else {
        count_sum(a, n - 1) + symbol_count(a, n - 1)
    }
}

/// Pegs of `a` among the first `k` whose symbol is below `n`.
pub open spec fn count_below(a: PossibleAnswer, n: int, k: int) -> nat
    decreases k,
{
    if k <= 0 {
        0
    } else {
        count_below(a, n, k - 1) + ind(a[k - 1] < n)
    }
}

proof fn lemma_count_below_step(a: PossibleAnswer, n: int, k: int)
    requires
        n >= 0,
    ensures
        count_below(a, n + 1, k) == count_below(a, n, k) + count_upto(a, n, k),
    decreases k,
{
    if k > 0 {
        lemma_count_below_step(a, n, k - 1);
    }
}

proof fn lemma_count_sum(a: PossibleAnswer, n: int)
    requires
        n >= 0,
    ensures
        count_sum(a, n) == count_below(a, n, 4),
    decreases n,
{
    if n == 0 {
        reveal_with_fuel(count_below, 5);
    } else {
        lemma_count_sum(a, n - 1);
        lemma_count_below_step(a, n - 1, 4);
    }
}

proof fn lemma_common_le_count_sum(a: PossibleAnswer, b: PossibleAnswer, n: int)
    requires
        n >= 0,
    ensures
        common_upto(a, b, n) <= count_sum(a, n),
        common_upto(a, b, n) <= count_sum(b, n),
    decreases n,
{
    if n > 0 {
        lemma_common_le_count_sum(a, b, n - 1);
    }
}

/// The shared symbols of two answers never exceed the number of pegs.
pub proof fn lemma_common_le_four(a: PossibleAnswer, b: PossibleAnswer)
    ensures
        common_symbols(a, b) <= 4,
{
    lemma_common_le_count_sum(a, b, 12);
    lemma_count_sum(a, 12);
    reveal_with_fuel(count_below, 5);
}

/// Scores a pair of answers `[a, b]`: returns (pegs of `a` equal to the peg of `b` in the
/// same position, pegs of a symbol common to both but in another position).
pub fn compare(a_and_b: &[PossibleAnswer; 2]) -> (res: (u8, u8))
    requires
        valid_answer(a_and_b[0]),
        valid_answer(a_and_b[1]),
    ensures
        res.0 == score(a_and_b[0], a_and_b[1]).0,
        res.1 == score(a_and_b[0], a_and_b[1]).1,
{
    let a = &a_and_b[0];
    let b = &a_and_b[1];
    let mut correct_positions: u8 = 0;
    let mut a_symbol_counter = [0u8; SYMBOL_COUNT];
    let mut b_symbol_counter = [0u8; SYMBOL_COUNT];
    for i in 0..ANSWER_SIZE
        invariant
            valid_answer(*a),
            valid_answer(*b),
            correct_positions == exact_upto(*a, *b, i as int),
            correct_positions <= i,
            forall|s: int| 0 <= s < 12 ==> #[trigger] a_symbol_counter[s] == count_upto(*a, s, i as int),
            forall|s: int| 0 <= s < 12 ==> #[trigger] b_symbol_counter[s] == count_upto(*b, s, i as int),
            forall|s: int| 0 <= s < 12 ==> a_symbol_counter[s] <= i && b_symbol_counter[s] <= i,
    {
        if a[i] == b[i] {
            correct_positions += 1;
        }
        let bb = b[i] as usize;
        let aa = a[i] as usize;
        b_symbol_counter[bb] = b_symbol_counter[bb] + 1;
        a_symbol_counter[aa] = a_symbol_counter[aa] + 1;
    }
    let mut common: u8 = 0;
    for s in 0..SYMBOL_COUNT
        invariant
            common == common_upto(*a, *b, s as int),
            common <= 4 * s,
            forall|t: int| 0 <= t < 12 ==> #[trigger] a_symbol_counter[t] == symbol_count(*a, t),
            forall|t: int| 0 <= t < 12 ==> #[trigger] b_symbol_counter[t] == symbol_count(*b, t),
            forall|t: int| 0 <= t < 12 ==> a_symbol_counter[t] <= 4 && b_symbol_counter[t] <= 4,
    {
        let x = a_symbol_counter[s];
        let y = b_symbol_counter[s];
        common = common + if x <= y { x } else { y };
    }
    proof {
        lemma_exact_le_common(*a, *b);
    }
    (correct_positions, common - correct_positions)
}


/// Positions below `k` where `a` differs from `b` and shows symbol `sym`.
pub open spec fn unmatched_upto(a: PossibleAnswer, b: PossibleAnswer, sym: int, k: int) -> nat
    decreases k,
{
    if k <= 0 {
        0
    } else {
        unmatched_upto(a, b, sym, k - 1) + ind(a[k - 1] != b[k - 1] && a[k - 1] == sym)
    }
}

/// Sum over the symbols below `n` of the smaller of the two counts of that symbol among
/// the pegs that are not in place.
pub open spec fn compare2_common_upto(a: PossibleAnswer, b: PossibleAnswer, n: int) -> nat
    decreases n,
{
    if n <= 0 {
        0
    } else {
        compare2_common_upto(a, b, n - 1) + min_nat(
            unmatched_upto(a, b, n - 1, 4),
            unmatched_upto(b, a, n - 1, 4),
        )
    }
}

/// Every peg that is not in place shows a known symbol, in both answers.
pub open spec fn compare2_in_range(a: PossibleAnswer, b: PossibleAnswer) -> bool {
    forall|i: int| 0 <= i < 4 && a[i] != b[i] ==> a[i] < SYMBOL_COUNT && b[i] < SYMBOL_COUNT
}

proof fn lemma_count_split(a: PossibleAnswer, b: PossibleAnswer, sym: int, k: int)
    ensures
        count_upto(a, sym, k) == unmatched_upto(a, b, sym, k) + matched_sym_upto(a, b, sym, k),
        count_upto(b, sym, k) == unmatched_upto(b, a, sym, k) + matched_sym_upto(a, b, sym, k),
    decreases k,
{
    if k > 0 {
        lemma_count_split(a, b, sym, k - 1);
    }
}

proof fn lemma_common_split(a: PossibleAnswer, b: PossibleAnswer, n: int)
    requires
        n >= 0,
    ensures
        common_upto(a, b, n) == compare2_common_upto(a, b, n) + matched_sum(a, b, n),
    decreases n,
{
    if n > 0 {
        lemma_common_split(a, b, n - 1);
        lemma_count_split(a, b, n - 1, 4);
    }
}

/// For valid answers the tally of `compare2` is the score of `compare`: the smaller counts
/// of the pegs not in place add up to the shared symbols less the pegs in place.
pub proof fn lemma_compare2_is_score(a: PossibleAnswer, b: PossibleAnswer)
    requires
        valid_answer(a),
    ensures
        compare2_common_upto(a, b, SYMBOL_COUNT as int) == score(a, b).1,
{
    lemma_common_split(a, b, 12);
    lemma_matched_sum(a, b, 12);
    reveal_with_fuel(matched_below, 5);
    reveal_with_fuel(exact_upto, 5);
}

/// The first scoring routine, which `compare` replaced by a faster one: it sets the pegs in
/// place aside, tallies the symbols of the remaining pegs of each answer, and adds up the
/// smaller tally of every symbol. On valid answers it gives the score of `compare`.
pub fn compare2(a_and_b: &[PossibleAnswer; 2]) -> (res: (u8, u8))
    requires
        compare2_in_range(a_and_b[0], a_and_b[1]),
    ensures
        res.0 == exact_matches(a_and_b[0], a_and_b[1]),
        res.1 == compare2_common_upto(a_and_b[0], a_and_b[1], SYMBOL_COUNT as int),
        valid_answer(a_and_b[0]) ==> res.0 == score(a_and_b[0], a_and_b[1]).0 && res.1 == score(
            a_and_b[0],
            a_and_b[1],
        ).1,
{
    let a = &a_and_b[0];
    let b = &a_and_b[1];
    let ghost ga = *a;
    let ghost gb = *b;

    let mut found_match_at_pos = [false; ANSWER_SIZE];
    let mut correct_positions: u8 = 0;
    for idx in 0..ANSWER_SIZE
        invariant
            *a == ga,
            *b == gb,
            correct_positions == exact_upto(ga, gb, idx as int),
            correct_positions <= idx,
            forall|j: int| 0 <= j < idx ==> #[trigger] found_match_at_pos[j] == (ga[j] == gb[j]),
    {
        if a[idx] == b[idx] {
            correct_positions += 1;
            found_match_at_pos[idx] = true;
        } else {
            found_match_at_pos[idx] = false;
        }
    }
    let mut a_symbol_counter = [0u8; SYMBOL_COUNT];
    let mut b_symbol_counter = [0u8; SYMBOL_COUNT];
    for i in 0..ANSWER_SIZE
        invariant
            *a == ga,
            *b == gb,
            compare2_in_range(ga, gb),
            forall|j: int| 0 <= j < 4 ==> #[trigger] found_match_at_pos[j] == (ga[j] == gb[j]),
            forall|s: int|
                0 <= s < 12 ==> #[trigger] a_symbol_counter[s] == unmatched_upto(ga, gb, s, i as int),
            forall|s: int|
                0 <= s < 12 ==> #[trigger] b_symbol_counter[s] == unmatched_upto(gb, ga, s, i as int),
            forall|s: int| 0 <= s < 12 ==> a_symbol_counter[s] <= i && b_symbol_counter[s] <= i,
    {
        if !found_match_at_pos[i] {
            let aa = a[i] as usize;
            let bb = b[i] as usize;
            a_symbol_counter[aa] = a_symbol_counter[aa] + 1;
            b_symbol_counter[bb] = b_symbol_counter[bb] + 1;
        }
    }
    let mut common: u8 = 0;
    for s in 0..SYMBOL_COUNT
        invariant
            common == compare2_common_upto(ga, gb, s as int),
            common <= 4 * s,
            forall|t: int| 0 <= t < 12 ==> #[trigger] a_symbol_counter[t] == unmatched_upto(ga, gb, t, 4),
            forall|t: int| 0 <= t < 12 ==> #[trigger] b_symbol_counter[t] == unmatched_upto(gb, ga, t, 4),
            forall|t: int| 0 <= t < 12 ==> a_symbol_counter[t] <= 4 && b_symbol_counter[t] <= 4,
    {
        let x = a_symbol_counter[s];
        let y = b_symbol_counter[s];
        common = common + if x <= y { x } else { y };
    }
    proof {
        if valid_answer(ga) {
            lemma_compare2_is_score(ga, gb);
        }
    }
    (correct_positions, common)
}


/// The abstract state of a `SolverContext`.
pub struct SolverState {
    /// `known_false[i]` holds once the answer with index `i` has been ruled out.
    pub known_false: Seq<bool>,
    /// How many guesses have been asked for since the last reset.
    pub attempt: nat,
    /// No answer below this index is still possible.
    pub first: int,
    /// No answer at or above this index is still possible.
    pub last: int,
}

/// `i` is the lowest index that `known_false` has not ruled out.
pub open spec fn is_lowest_open(known_false: Seq<bool>, i: int) -> bool {
    &&& 0 <= i < POSSIBLE_ANSWERS
    &&& !known_false[i]
    &&& forall|j: int| 0 <= j < i ==> known_false[j]
}

/// `i` is the highest index that `known_false` has not ruled out.
pub open spec fn is_highest_open(known_false: Seq<bool>, i: int) -> bool {
    &&& 0 <= i < POSSIBLE_ANSWERS
    &&& !known_false[i]
    &&& forall|j: int| i < j < POSSIBLE_ANSWERS ==> known_false[j]
}

/// The lowest index not ruled out (meaningful when there is one).
pub open spec fn lowest_open(known_false: Seq<bool>) -> int {
    choose|i: int| is_lowest_open(known_false, i)
}

/// The highest index not ruled out (meaningful when there is one).
pub open spec fn highest_open(known_false: Seq<bool>) -> int {
    choose|i: int| is_highest_open(known_false, i)
}

/// The answer with index `i` would have scored `(cp, cs)` against `ans`.
pub open spec fn consistent(i: int, ans: PossibleAnswer, cp: u8, cs: u8) -> bool {
    score(answer_of_index(i), ans) == (cp as int, cs as int)
}

/// The fixed opening guesses, asked for at the first, second and third attempt.
pub open spec fn opening_guess(attempt: nat) -> PossibleAnswer {
    if attempt == 1 {
        [0u8, 0u8, 1u8, 2u8]
    } else if attempt == 2 {
        [3u8, 3u8, 4u8, 4u8]
    } else {
        [5u8, 5u8, 6u8, 6u8]
    }
}

/// The larger of two naturals.
pub open spec fn max_nat(x: nat, y: nat) -> nat {
    if x >= y {
        x
    } else {
        y
    }
}

impl SolverState {
    /// The state of a fresh or reset solver: every answer possible.
    pub open spec fn initial() -> SolverState {
        SolverState {
            known_false: Seq::new(POSSIBLE_ANSWERS as nat, |i: int| false),
            attempt: 0,
            first: 0,
            last: POSSIBLE_ANSWERS as int,
        }
    }

    /// The bounds enclose every answer that is still possible.
    pub open spec fn wf(self) -> bool {
        &&& self.known_false.len() == POSSIBLE_ANSWERS
        &&& 0 <= self.first <= self.last <= POSSIBLE_ANSWERS
        &&& forall|i: int| 0 <= i < self.first ==> self.known_false[i]
        &&& forall|i: int| self.last <= i < POSSIBLE_ANSWERS ==> self.known_false[i]
    }

    /// The answer with index `i` is still possible.
    pub open spec fn is_candidate(self, i: int) -> bool {
        0 <= i < POSSIBLE_ANSWERS && !self.known_false[i]
    }

    /// Some possible answer would have scored `(cp, cs)` against `ans`.
    pub open spec fn has_consistent(self, ans: PossibleAnswer, cp: u8, cs: u8) -> bool {
        exists|i: int| self.is_candidate(i) && consistent(i, ans, cp, cs)
    }

    /// The flags after ruling out every answer that would not have scored `(cp, cs)`
    /// against `ans`.
    pub open spec fn filtered(self, ans: PossibleAnswer, cp: u8, cs: u8) -> Seq<bool> {
        Seq::new(
            POSSIBLE_ANSWERS as nat,
            |i: int| self.known_false[i] || !consistent(i, ans, cp, cs),
        )
    }

    /// The state after learning that `ans` scored `(cp, cs)`.
    pub open spec fn after_result(self, ans: PossibleAnswer, cp: u8, cs: u8) -> SolverState {
        let kf = self.filtered(ans, cp, cs);
        SolverState {
            known_false: kf,
            attempt: self.attempt,
            first: lowest_open(kf),
            last: highest_open(kf) + 1,
        }
    }

    /// Possible answers with index in `[first, hi)` whose score against the answer with
    /// index `g` is exactly `(cp, cs)`.
    pub open spec fn match_count(self, g: int, cp: int, cs: int, hi: int) -> nat
        decreases hi - self.first,
    {
        if hi <= self.first {
            0
        } else {
            self.match_count(g, cp, cs, hi - 1) + ind(
                self.is_candidate(hi - 1) && score(answer_of_index(hi - 1), answer_of_index(g))
                    == (cp, cs),
            )
        }
    }

    /// Possible answers with index in `[first, hi)`.
    pub open spec fn candidates_upto(self, hi: int) -> nat
        decreases hi - self.first,
    {
        if hi <= self.first {
            0
        } else {
            self.candidates_upto(hi - 1) + ind(self.is_candidate(hi - 1))
        }
    }

    /// The count for one score `(cp, cs)` that the guess search weighs: the possible
    /// answers left over if a guess of index `g` scored `(cp, cs)`; zero for pairs that add
    /// up to more than four, which no score does.
    pub open spec fn score_weight(self, g: int, cp: int, cs: int) -> nat {
        if cp + cs < 5 {
            self.match_count(g, cp, cs, self.last)
        } else {
            0
        }
    }

    /// The largest weight among the scores `(cp, 0..n)`.
    pub open spec fn worst_in_row(self, g: int, cp: int, n: int) -> nat
        decreases n,
    {
        if n <= 0 {
            0
        } else {
            max_nat(self.worst_in_row(g, cp, n - 1), self.score_weight(g, cp, n - 1))
        }
    }

    /// The largest weight among the scores `(0..m, 0..5)`.
    pub open spec fn worst_upto(self, g: int, m: int) -> nat
        decreases m,
    {
        if m <= 0 {
            0
        } else {
            max_nat(self.worst_upto(g, m - 1), self.worst_in_row(g, m - 1, 5))
        }
    }

    /// The weight of guessing the answer with index `g`: the most possible answers that any
    /// score could leave over (the scores being the pairs that add up to at most four).
    pub open spec fn worst_case(self, g: int) -> nat {
        self.worst_upto(g, 5)
    }

    /// The guess search over the indices in `[first, k)`: the first possible answer of
    /// least weight, below the initial bound, as (index, weight); (1, POSSIBLE_ANSWERS)
    /// when no possible answer beats that bound.
    pub open spec fn best_upto(self, k: int) -> (int, nat)
        decreases k - self.first,
    {
        if k <= self.first {
            (1, POSSIBLE_ANSWERS as nat)
        } else {
            let prev = self.best_upto(k - 1);
            if self.is_candidate(k - 1) && self.worst_case(k - 1) < prev.1 {
                (k - 1, self.worst_case(k - 1))
            } else {
                prev
            }
        }
    }

    /// The answer that the next guess proposes.
    pub open spec fn next_guess(self) -> PossibleAnswer {
        let attempt = self.attempt + 1;
        if 1 <= attempt <= 3 {
            opening_guess(attempt)
        } else {
            answer_of_index(self.best_upto(self.last).0)
        }
    }

    /// The state after asking for a guess.
    pub open spec fn after_guess(self) -> SolverState {
        SolverState { attempt: self.attempt + 1, ..self }
    }
}

proof fn lemma_match_le_candidates(v: SolverState, g: int, cp: int, cs: int, hi: int)
    ensures
        v.match_count(g, cp, cs, hi) <= v.candidates_upto(hi),
    decreases hi - v.first,
{
    if hi > v.first {
        lemma_match_le_candidates(v, g, cp, cs, hi - 1);
    }
}

/// Where the count of possible answers scoring `(cp, cs)` sits in a score histogram.
pub open spec fn slot(cp: int, cs: int) -> int {
    cp * 5 + cs
}

/// The guess search reads only the flags and the bounds of a state.
proof fn lemma_search_ignores_attempt(v: SolverState, w: SolverState, k: int)
    requires
        v.known_false == w.known_false,
        v.first == w.first,
        v.last == w.last,
    ensures
        v.best_upto(k) == w.best_upto(k),
    decreases k - v.first,
{
    if k > v.first {
        lemma_search_ignores_attempt(v, w, k - 1);
        lemma_worst_ignores_attempt(v, w, k - 1);
    }
}

proof fn lemma_worst_ignores_attempt(v: SolverState, w: SolverState, g: int)
    requires
        v.known_false == w.known_false,
        v.first == w.first,
        v.last == w.last,
    ensures
        v.worst_case(g) == w.worst_case(g),
{
    assert forall|cp: int, cs: int| v.score_weight(g, cp, cs) == w.score_weight(g, cp, cs) by {
        lemma_match_ignores_attempt(v, w, g, cp, cs, v.last);
    }
    assert forall|cp: int| v.worst_in_row(g, cp, 5) == w.worst_in_row(g, cp, 5) by {
        reveal_with_fuel(SolverState::worst_in_row, 6);
    }
    reveal_with_fuel(SolverState::worst_upto, 6);
}

proof fn lemma_match_ignores_attempt(
    v: SolverState,
    w: SolverState,
    g: int,
    cp: int,
    cs: int,
    hi: int,
)
    requires
        v.known_false == w.known_false,
        v.first == w.first,
        v.last == w.last,
    ensures
        v.match_count(g, cp, cs, hi) == w.match_count(g, cp, cs, hi),
    decreases hi - v.first,
{
    if hi > v.first {
        lemma_match_ignores_attempt(v, w, g, cp, cs, hi - 1);
    }
}

/// The number of guesses that `SolverContext::solve` makes from state `v` to reach
/// `secret`, scoring each guess against the secret; `None` where it would need a 256th
/// guess.
pub open spec fn solve_run(v: SolverState, secret: PossibleAnswer) -> Option<nat>
    decreases 255 - v.attempt,
{
    if v.attempt >= 255 {
        None
    } else {
        let g = v.next_guess();
        if g == secret {
            Some(1)
        } else {
            let sc = score(secret, g);
            match solve_run(v.after_guess().after_result(g, sc.0 as u8, sc.1 as u8), secret) {
                Some(n) => Some(n + 1),
                None => None,
            }
        }
    }
}

proof fn lemma_solve_run_bound(v: SolverState, secret: PossibleAnswer)
    requires
        solve_run(v, secret) is Some,
    ensures
        1 <= solve_run(v, secret)->0 <= 255 - v.attempt,
    decreases 255 - v.attempt,
{
    let g = v.next_guess();
    if g != secret {
        let sc = score(secret, g);
        lemma_solve_run_bound(v.after_guess().after_result(g, sc.0 as u8, sc.1 as u8), secret);
    }
}

/// Mastermind-style solver state: which of the `POSSIBLE_ANSWERS` answers have been ruled
/// out, and how many guesses have been made.
pub struct SolverContext {
    answers_known_to_be_false: Vec<bool>,
    attempt: u8,
    first_idx: usize,
    last_idx: usize,
}

impl View for SolverContext {
    type V = SolverState;

    closed spec fn view(&self) -> SolverState {
        SolverState {
            known_false: self.answers_known_to_be_false@,
            attempt: self.attempt as nat,
            first: self.first_idx as int,
            last: self.last_idx as int,
        }
    }
}

impl SolverContext {
    /// The context's fields agree with each other: its view is well-formed.
    pub open spec fn wf(&self) -> bool {
        self@.wf()
    }

    /// A solver with every answer still possible and no guess made.
    pub fn new() -> (res: Self)
        ensures
            res.wf(),
            res@ == SolverState::initial(),
    {
        let mut known: Vec<bool> = Vec::new();
        let mut i: usize = 0;
        while i < POSSIBLE_ANSWERS
            invariant
                i <= POSSIBLE_ANSWERS,
                known@.len() == i,
                forall|j: int| 0 <= j < i ==> !known@[j],
            decreases POSSIBLE_ANSWERS - i,
        {
            known.push(false);
            i += 1;
        }
        let res = SolverContext {
            answers_known_to_be_false: known,
            first_idx: 0,
            last_idx: POSSIBLE_ANSWERS,
            attempt: 0,
        };
        assert(res@.known_false =~= SolverState::initial().known_false);
        res
    }

    /// Makes every answer possible again and forgets the guesses made.
    pub fn reset(&mut self)
        requires
            old(self).wf(),
        ensures
            final(self).wf(),
            final(self)@ == SolverState::initial(),
    {
        let mut i: usize = 0;
        while i < self.answers_known_to_be_false.len()
            invariant
                self.answers_known_to_be_false@.len() == POSSIBLE_ANSWERS,
                i <= POSSIBLE_ANSWERS,
                forall|j: int| 0 <= j < i ==> !self.answers_known_to_be_false@[j],
            decreases POSSIBLE_ANSWERS - i,
        {
            self.answers_known_to_be_false.set(i, false);
            i += 1;
        }
        self.attempt = 0;
        self.first_idx = 0;
        self.last_idx = POSSIBLE_ANSWERS;
        assert(self@.known_false =~= SolverState::initial().known_false);
    }

    /// Rules out every possible answer that would not have scored `(correct_positions,
    /// correct_symbols)` against `ans`, and narrows the bounds to the answers left.
    pub fn apply_result(&mut self, ans: PossibleAnswer, correct_positions: u8, correct_symbols: u8)
        requires
            old(self).wf(),
            valid_answer(ans),
            old(self)@.has_consistent(ans, correct_positions, correct_symbols),
        ensures
            final(self).wf(),
            final(self)@ == old(self)@.after_result(ans, correct_positions, correct_symbols),
    {
        let ghost old_v = self@;
        let ghost kf = old_v.filtered(ans, correct_positions, correct_symbols);
        let mut compare_area = [ans, ans];
        let mut idx = self.first_idx;
        while idx < self.last_idx
            invariant
                old_v.wf(),
                self.answers_known_to_be_false@.len() == POSSIBLE_ANSWERS,
                self.first_idx == old_v.first,
                self.last_idx == old_v.last,
                self.attempt == old_v.attempt,
                old_v.first <= idx <= old_v.last,
                compare_area[1] == ans,
                valid_answer(ans),
                kf == old_v.filtered(ans, correct_positions, correct_symbols),
                forall|i: int|
                    0 <= i < POSSIBLE_ANSWERS ==> #[trigger] self.answers_known_to_be_false@[i] == (
                    if old_v.first <= i < idx {
                        kf[i]
                    } else {
                        old_v.known_false[i]
                    }),
            decreases old_v.last - idx,
        {
            if !self.answers_known_to_be_false[idx] {
                compare_area[0] = idx_to_answer(idx);
                let res = compare(&compare_area);
                if res.0 != correct_positions || res.1 != correct_symbols {
                    self.answers_known_to_be_false.set(idx, true);
                }
            }
            idx += 1;
        }
        assert(self.answers_known_to_be_false@ =~= kf);
        let ghost w = choose|i: int| old_v.is_candidate(i) && consistent(i, ans, correct_positions, correct_symbols);
        assert(!kf[w]);

        let mut lo: usize = 0;
        while self.answers_known_to_be_false[lo]
            invariant
                self.answers_known_to_be_false@ == kf,
                kf.len() == POSSIBLE_ANSWERS,
                0 <= w < POSSIBLE_ANSWERS,
                !kf[w],
                lo <= w,
                forall|j: int| 0 <= j < lo ==> kf[j],
            decreases w - lo,
        {
            lo += 1;
        }
        let mut hi: usize = POSSIBLE_ANSWERS - 1;
        while self.answers_known_to_be_false[hi]
            invariant
                self.answers_known_to_be_false@ == kf,
                kf.len() == POSSIBLE_ANSWERS,
                0 <= w < POSSIBLE_ANSWERS,
                !kf[w],
                w <= hi < POSSIBLE_ANSWERS,
                forall|j: int| hi < j < POSSIBLE_ANSWERS ==> kf[j],
            decreases hi - w,
        {
            hi -= 1;
        }
        proof {
            assert(is_lowest_open(kf, lo as int));
            let c = lowest_open(kf);
            assert(is_lowest_open(kf, c));
            if c < lo {
                assert(kf[c]);
            } else if c > lo {
                assert(kf[lo as int]);
            }
            assert(is_highest_open(kf, hi as int));
            let d = highest_open(kf);
            assert(is_highest_open(kf, d));
            if d < hi {
                assert(kf[d]);
            } else if d > hi {
                assert(kf[hi as int]);
            }
        }
        self.first_idx = lo;
        self.last_idx = hi + 1;
    }

    /// Scores every possible answer against the answer with index `idx`: returns how many
    /// possible answers got each score, indexed by `slot`, and how many answers are possible.
    fn score_histogram(&self, idx: usize) -> (res: ([usize; 25], usize))
        requires
            self.wf(),
            idx < POSSIBLE_ANSWERS,
        ensures
            forall|cp: int, cs: int|
                0 <= cp < 5 && 0 <= cs < 5 ==> #[trigger] res.0[slot(cp, cs)]
                    == self@.match_count(idx as int, cp, cs, self@.last),
            res.1 == self@.candidates_upto(self@.last),
    {
        let mut compare_area = [idx_to_answer(idx), idx_to_answer(idx)];
        let mut counts = [0usize; 25];
        let mut total: usize = 0;
        let mut possible_idx = self.first_idx;
        while possible_idx < self.last_idx
            invariant
                self.wf(),
                self@.first <= possible_idx <= self@.last,
                compare_area[1] == answer_of_index(idx as int),
                total == self@.candidates_upto(possible_idx as int),
                total <= possible_idx - self@.first,
                forall|cp: int, cs: int|
                    0 <= cp < 5 && 0 <= cs < 5 ==> #[trigger] counts[slot(cp, cs)]
                        == self@.match_count(idx as int, cp, cs, possible_idx as int),
                forall|k: int| 0 <= k < 25 ==> counts[k] <= possible_idx - self@.first,
            decreases self@.last - possible_idx,
        {
            if !self.answers_known_to_be_false[possible_idx] {
                let ghost c = answer_of_index(possible_idx as int);
                compare_area[0] = idx_to_answer(possible_idx);
                let res = compare(&compare_area);
                proof {
                    lemma_index_answer_roundtrip(possible_idx as int);
                    lemma_common_le_four(c, answer_of_index(idx as int));
                }
                let k = (res.0 as usize) * 5 + (res.1 as usize);
                assert(k == slot(res.0 as int, res.1 as int));
                counts[k] = counts[k] + 1;
                total += 1;
            }
            possible_idx += 1;
        }
        (counts, total)
    }

    /// Asks for the next guess. The first three attempts use fixed openings; later ones
    /// take the first possible answer whose worst score leaves the fewest answers possible
    /// (see `SolverState::worst_case`).
    pub fn guess(&mut self) -> (ans: PossibleAnswer)
        requires
            old(self).wf(),
            old(self)@.attempt < 255,
        ensures
            final(self).wf(),
            final(self)@ == old(self)@.after_guess(),
            ans == old(self)@.next_guess(),
            valid_answer(ans),
    {
        self.attempt += 1;
        if self.attempt == 1 {
            return [0, 0, 1, 2];
        }
        if self.attempt == 2 {
            return [3, 3, 4, 4];
        }
        if self.attempt == 3 {
            return [5, 5, 6, 6];
        }
        proof {
            lemma_search_ignores_attempt(old(self)@, self@, self@.last);
        }
        let mut guess: usize = 1;
        let mut possibilities_left_after: usize = POSSIBLE_ANSWERS;
        let mut idx = self.first_idx;
        while idx < self.last_idx
            invariant
                self.wf(),
                self@.first <= idx <= self@.last,
                guess < POSSIBLE_ANSWERS,
                (guess as int, possibilities_left_after as nat) == self@.best_upto(idx as int),
            decreases self@.last - idx,
        {
            if !self.answers_known_to_be_false[idx] {
                let histogram = self.score_histogram(idx);
                let mut max_possible_answers: usize = 0;
                let mut correct_positions: u8 = 0;
                while correct_positions < 5
                    invariant
                        self.wf(),
                        idx < POSSIBLE_ANSWERS,
                        correct_positions <= 5,
                        max_possible_answers == self@.worst_upto(idx as int, correct_positions as int),
                        forall|cp: int, cs: int|
                            0 <= cp < 5 && 0 <= cs < 5 ==> #[trigger] histogram.0[slot(cp, cs)]
                                == self@.match_count(idx as int, cp, cs, self@.last),
                        histogram.1 == self@.candidates_upto(self@.last),
                    decreases 5 - correct_positions,
                {
                    let mut correct_symbols: u8 = 0;
                    while correct_symbols < 5
                        invariant
                            self.wf(),
                            idx < POSSIBLE_ANSWERS,
                            correct_positions < 5,
                            correct_symbols <= 5,
                            forall|cp: int, cs: int|
                                0 <= cp < 5 && 0 <= cs < 5 ==> #[trigger] histogram.0[slot(cp, cs)]
                                    == self@.match_count(idx as int, cp, cs, self@.last),
                            histogram.1 == self@.candidates_upto(self@.last),
                            max_possible_answers == max_nat(
                                self@.worst_upto(idx as int, correct_positions as int),
                                self@.worst_in_row(idx as int, correct_positions as int, correct_symbols as int),
                            ),
                        decreases 5 - correct_symbols,
                    {
                        if correct_positions + correct_symbols < 5 {
                            let k = (correct_positions as usize) * 5 + (correct_symbols as usize);
                            proof {
                                assert(k == slot(correct_positions as int, correct_symbols as int));
                            }
                            let c = histogram.0[k];
                            if c > max_possible_answers {
                                max_possible_answers = c;
                            }
                        }
                        correct_symbols += 1;
                    }
                    correct_positions += 1;
                }
                if max_possible_answers < possibilities_left_after {
                    guess = idx;
                    possibilities_left_after = max_possible_answers;
                }
            }
            idx += 1;
        }
        idx_to_answer(guess)
    }

    /// Resets the solver and plays a whole game against `actual_secret_answer`, scoring
    /// each guess itself; returns how many guesses it took, the last one being the secret.
    /// (A guess never repeats the one before it: see `lemma_no_repeated_guess`.)
    pub fn solve(&mut self, actual_secret_answer: PossibleAnswer) -> (tries: usize)
        requires
            old(self).wf(),
            valid_answer(actual_secret_answer),
            solve_run(SolverState::initial(), actual_secret_answer) is Some,
        ensures
            final(self).wf(),
            tries == solve_run(SolverState::initial(), actual_secret_answer)->0,
            1 <= tries <= 255,
    {
        proof {
            lemma_solve_run_bound(SolverState::initial(), actual_secret_answer);
        }
        match self.try_solve(actual_secret_answer) {
            Some(n) => n,
            None => {
                proof {
                    assert(false);
                }
                0
            },
        }
    }

    /// Plays the game of `solve`, but gives `None` where the game would need a guess past
    /// the 255th (the attempt counter is a byte), which `solve` does not allow.
    pub fn try_solve(&mut self, actual_secret_answer: PossibleAnswer) -> (tries: Option<usize>)
        requires
            old(self).wf(),
            valid_answer(actual_secret_answer),
        ensures
            final(self).wf(),
            tries == (match solve_run(SolverState::initial(), actual_secret_answer) {
                Some(n) => Some(n as usize),
                None => None::<usize>,
            }),
    {
        let ghost start = SolverState::initial();
        let ghost secret_idx = index_of_answer(actual_secret_answer);
        proof {
            lemma_answer_index_roundtrip(actual_secret_answer);
            if solve_run(start, actual_secret_answer) is Some {
                lemma_solve_run_bound(start, actual_secret_answer);
            }
        }
        let mut compare_area = [actual_secret_answer; 2];
        self.reset();

        let mut try_count: usize = 0;
        let mut last_guess: Option<PossibleAnswer> = None;
        let ghost mut prev = self@;
        loop
            invariant
                self.wf(),
                valid_answer(actual_secret_answer),
                compare_area[0] == actual_secret_answer,
                secret_idx == index_of_answer(actual_secret_answer),
                answer_of_index(secret_idx) == actual_secret_answer,
                self@.is_candidate(secret_idx),
                start == SolverState::initial(),
                try_count == self@.attempt,
                self@.attempt <= 255,
                match solve_run(start, actual_secret_answer) {
                    Some(total) => {
                        &&& total <= 255
                        &&& try_count < total
                        &&& solve_run(self@, actual_secret_answer) == Some((total - try_count) as nat)
                    },
                    None => solve_run(self@, actual_secret_answer) is None,
                },
                last_guess matches Some(lg) ==> {
                    &&& prev.wf()
                    &&& prev.is_candidate(secret_idx)
                    &&& prev.next_guess() == lg
                    &&& lg != actual_secret_answer
                    &&& self@ == prev.after_guess().after_result(
                        lg,
                        score(actual_secret_answer, lg).0 as u8,
                        score(actual_secret_answer, lg).1 as u8,
                    )
                },
            decreases 255 - self@.attempt,
        {
            let ghost before = self@;
            if self.attempt() >= 255 {
                return None;
            }
            try_count += 1;
            let guess = self.guess();
            if let Some(lg) = last_guess {
                if same_answer(&lg, &guess) {
                    proof {
                        lemma_no_repeated_guess(prev, actual_secret_answer);
                        assert(false);
                    }
                }
            }
            if same_answer(&guess, &actual_secret_answer) {
                assert(solve_run(before, actual_secret_answer) == Some(1nat));
                return Some(try_count);
            }
            compare_area[1] = guess;
            let res = compare(&compare_area);
            proof {
                lemma_secret_survives(self@, actual_secret_answer, guess);
            }
            self.apply_result(guess, res.0, res.1);
            proof {
                lemma_after_result(
                    before.after_guess(),
                    guess,
                    res.0,
                    res.1,
                    secret_idx,
                );
                prev = before;
            }
            last_guess = Some(guess);
        }
    }
}

impl SolverContext {
    /// Whether some possible answer would have scored `(correct_positions,
    /// correct_symbols)` against `ans`, which `apply_result` needs.
    pub fn has_consistent_candidate(&self, ans: PossibleAnswer, correct_positions: u8, correct_symbols: u8) -> (res: bool)
        requires
            self.wf(),
            valid_answer(ans),
        ensures
            res == self@.has_consistent(ans, correct_positions, correct_symbols),
    {
        let mut compare_area = [ans, ans];
        let mut idx = self.first_idx;
        while idx < self.last_idx
            invariant
                self.wf(),
                self@.first <= idx <= self@.last,
                compare_area[1] == ans,
                valid_answer(ans),
                forall|i: int| self@.first <= i < idx ==> !(self@.is_candidate(i) && consistent(i, ans, correct_positions, correct_symbols)),
            decreases self@.last - idx,
        {
            if !self.answers_known_to_be_false[idx] {
                compare_area[0] = idx_to_answer(idx);
                let res = compare(&compare_area);
                if res.0 == correct_positions && res.1 == correct_symbols {
                    assert(self@.is_candidate(idx as int) && consistent(idx as int, ans, correct_positions, correct_symbols));
                    return true;
                }
            }
            idx += 1;
        }
        false
    }

    /// Number of answers still possible.
    pub fn remaining_count(&self) -> (count: usize)
        requires
            self.wf(),
        ensures
            count == self@.candidates_upto(self@.last),
    {
        let mut count: usize = 0;
        let mut idx = self.first_idx;
        while idx < self.last_idx
            invariant
                self.wf(),
                self@.first <= idx <= self@.last,
                count == self@.candidates_upto(idx as int),
                count <= idx - self@.first,
            decreases self@.last - idx,
        {
            if !self.answers_known_to_be_false[idx] {
                count += 1;
            }
            idx += 1;
        }
        count
    }

    /// How many guesses have been asked for since the last reset.
    pub fn attempt(&self) -> (res: u8)
        ensures
            res == self@.attempt,
    {
        self.attempt
    }

    /// The bounds `(first, last)` that enclose every answer still possible.
    pub fn bounds(&self) -> (res: (usize, usize))
        ensures
            res.0 == self@.first,
            res.1 == self@.last,
    {
        (self.first_idx, self.last_idx)
    }

    /// Whether the answer with index `idx` has been ruled out.
    pub fn is_ruled_out(&self, idx: usize) -> (res: bool)
        requires
            self.wf(),
            idx < POSSIBLE_ANSWERS,
        ensures
            res == self@.known_false[idx as int],
    {
        self.answers_known_to_be_false[idx]
    }
}

impl Default for SolverContext {
    fn default() -> (res: Self)
        ensures
            res.wf(),
            res@ == SolverState::initial(),
    {
        Self::new()
    }
}

/// The two answers show the same symbol at every position.
fn same_answer(a: &PossibleAnswer, b: &PossibleAnswer) -> (res: bool)
    ensures
        res == (*a == *b),
{
    let res = a[0] == b[0] && a[1] == b[1] && a[2] == b[2] && a[3] == b[3];
    proof {
        if res {
            assert(*a =~= *b);
        }
    }
    res
}


proof fn lemma_exact_upto_symmetric(a: PossibleAnswer, b: PossibleAnswer, k: int)
    ensures
        exact_upto(a, b, k) == exact_upto(b, a, k),
    decreases k,
{
    if k > 0 {
        lemma_exact_upto_symmetric(a, b, k - 1);
    }
}

proof fn lemma_common_upto_symmetric(a: PossibleAnswer, b: PossibleAnswer, n: int)
    ensures
        common_upto(a, b, n) == common_upto(b, a, n),
    decreases n,
{
    if n > 0 {
        lemma_common_upto_symmetric(a, b, n - 1);
    }
}

/// Scoring is symmetric: `a` scored against `b` gives the same pair as `b` against `a`.
pub proof fn lemma_score_symmetric(a: PossibleAnswer, b: PossibleAnswer)
    ensures
        score(a, b) == score(b, a),
{
    lemma_exact_upto_symmetric(a, b, 4);
    lemma_common_upto_symmetric(a, b, SYMBOL_COUNT as int);
}

proof fn lemma_common_self(a: PossibleAnswer, n: int)
    ensures
        common_upto(a, a, n) == count_sum(a, n),
    decreases n,
{
    if n > 0 {
        lemma_common_self(a, n - 1);
    }
}

/// An answer scored against itself has all four pegs in place and none misplaced.
pub proof fn lemma_score_self(a: PossibleAnswer)
    requires
        valid_answer(a),
    ensures
        score(a, a) == (4int, 0int),
{
    reveal_with_fuel(exact_upto, 5);
    lemma_common_self(a, 12);
    lemma_count_sum(a, 12);
    reveal_with_fuel(count_below, 5);
}

/// A score never counts more than four pegs in all, and never a negative number.
pub proof fn lemma_score_bounds(a: PossibleAnswer, b: PossibleAnswer)
    requires
        valid_answer(a),
    ensures
        0 <= score(a, b).0,
        0 <= score(a, b).1,
        score(a, b).0 + score(a, b).1 <= 4,
{
    lemma_exact_le_common(a, b);
    lemma_common_le_four(a, b);
}

/// All four pegs are in place exactly when the answers are equal.
pub proof fn lemma_all_in_place(a: PossibleAnswer, b: PossibleAnswer)
    ensures
        (score(a, b).0 == 4) <==> (a == b),
{
    reveal_with_fuel(exact_upto, 5);
    if score(a, b).0 == 4 {
        assert(a =~= b);
    }
}


/// Learning a result keeps exactly the possible answers that would have produced it, and
/// the bounds stay consistent.
pub proof fn lemma_after_result(v: SolverState, ans: PossibleAnswer, cp: u8, cs: u8, i: int)
    requires
        v.wf(),
        v.has_consistent(ans, cp, cs),
    ensures
        v.after_result(ans, cp, cs).wf(),
        v.after_result(ans, cp, cs).is_candidate(i) <==> (v.is_candidate(i) && consistent(
            i,
            ans,
            cp,
            cs,
        )),
        v.after_result(ans, cp, cs).attempt == v.attempt,
{
    let kf = v.filtered(ans, cp, cs);
    let w = choose|j: int| v.is_candidate(j) && consistent(j, ans, cp, cs);
    assert(!kf[w]);
    lemma_open_ends_exist(kf, w);
    let lo = lowest_open(kf);
    let hi = highest_open(kf);
    assert(is_lowest_open(kf, lo));
    assert(is_highest_open(kf, hi));
    if lo > hi {
        assert(kf[lo]);
    }
}

proof fn lemma_open_ends_exist(kf: Seq<bool>, w: int)
    requires
        kf.len() == POSSIBLE_ANSWERS,
        0 <= w < POSSIBLE_ANSWERS,
        !kf[w],
    ensures
        exists|i: int| is_lowest_open(kf, i),
        exists|i: int| is_highest_open(kf, i),
{
    let lo = lemma_lowest_open_from(kf, w, 0);
    let hi = lemma_highest_open_from(kf, w, POSSIBLE_ANSWERS - 1);
    assert(is_lowest_open(kf, lo));
    assert(is_highest_open(kf, hi));
}

proof fn lemma_lowest_open_from(kf: Seq<bool>, w: int, i: int) -> (lo: int)
    requires
        kf.len() == POSSIBLE_ANSWERS,
        0 <= i <= w < POSSIBLE_ANSWERS,
        !kf[w],
        forall|j: int| 0 <= j < i ==> kf[j],
    ensures
        is_lowest_open(kf, lo),
    decreases w - i,
{
    if !kf[i] {
        i
    } else {
        lemma_lowest_open_from(kf, w, i + 1)
    }
}

proof fn lemma_highest_open_from(kf: Seq<bool>, w: int, i: int) -> (hi: int)
    requires
        kf.len() == POSSIBLE_ANSWERS,
        0 <= w <= i < POSSIBLE_ANSWERS,
        !kf[w],
        forall|j: int| i < j < POSSIBLE_ANSWERS ==> kf[j],
    ensures
        is_highest_open(kf, hi),
    decreases i - w,
{
    if !kf[i] {
        i
    } else {
        lemma_highest_open_from(kf, w, i - 1)
    }
}

/// The secret is never ruled out by the true score of a guess against it.
pub proof fn lemma_secret_survives(v: SolverState, secret: PossibleAnswer, g: PossibleAnswer)
    requires
        v.wf(),
        valid_answer(secret),
        v.is_candidate(index_of_answer(secret)),
    ensures
        v.has_consistent(g, score(secret, g).0 as u8, score(secret, g).1 as u8),
        v.after_result(g, score(secret, g).0 as u8, score(secret, g).1 as u8).is_candidate(
            index_of_answer(secret),
        ),
{
    lemma_answer_index_roundtrip(secret);
    lemma_score_bounds(secret, g);
    let i = index_of_answer(secret);
    assert(consistent(i, g, score(secret, g).0 as u8, score(secret, g).1 as u8));
    lemma_after_result(v, g, score(secret, g).0 as u8, score(secret, g).1 as u8, i);
}


/// Answers not ruled out among the indices below `hi`.
pub open spec fn open_below(known_false: Seq<bool>, hi: int) -> nat
    decreases hi,
{
    if hi <= 0 {
        0
    } else {
        open_below(known_false, hi - 1) + ind(!known_false[hi - 1])
    }
}

proof fn lemma_open_below_ruled_out(kf: Seq<bool>, hi: int)
    requires
        forall|j: int| 0 <= j < hi ==> kf[j],
    ensures
        open_below(kf, hi) == 0,
    decreases hi,
{
    if hi > 0 {
        lemma_open_below_ruled_out(kf, hi - 1);
    }
}

proof fn lemma_candidates_as_open(v: SolverState, hi: int)
    requires
        v.wf(),
        v.first <= hi <= POSSIBLE_ANSWERS,
    ensures
        v.candidates_upto(hi) + open_below(v.known_false, v.first) == open_below(v.known_false, hi),
    decreases hi - v.first,
{
    if hi > v.first {
        lemma_candidates_as_open(v, hi - 1);
    }
}

proof fn lemma_open_below_tail(v: SolverState, hi: int)
    requires
        v.wf(),
        v.last <= hi <= POSSIBLE_ANSWERS,
    ensures
        open_below(v.known_false, hi) == open_below(v.known_false, v.last),
    decreases hi - v.last,
{
    if hi > v.last {
        lemma_open_below_tail(v, hi - 1);
    }
}

/// The possible answers within the bounds are all the answers not ruled out.
proof fn lemma_candidates_all_open(v: SolverState)
    requires
        v.wf(),
    ensures
        v.candidates_upto(v.last) == open_below(v.known_false, POSSIBLE_ANSWERS as int),
{
    lemma_open_below_ruled_out(v.known_false, v.first);
    lemma_candidates_as_open(v, v.last);
    lemma_open_below_tail(v, POSSIBLE_ANSWERS as int);
}

/// Ruling out more answers never leaves more open, and ruling out `j` as well leaves fewer.
proof fn lemma_open_below_shrinks(a: Seq<bool>, b: Seq<bool>, hi: int, j: int)
    requires
        forall|i: int| 0 <= i < hi && #[trigger] a[i] ==> b[i],
    ensures
        open_below(b, hi) <= open_below(a, hi),
        0 <= j < hi && b[j] && !a[j] ==> open_below(b, hi) < open_below(a, hi),
    decreases hi,
{
    if hi > 0 {
        lemma_open_below_shrinks(a, b, hi - 1, j);
    }
}

/// Scoring a guess that is still possible but is not the secret rules the guess out while
/// the secret stays possible, so strictly fewer answers remain possible.
pub proof fn lemma_result_shrinks_candidates(v: SolverState, g: PossibleAnswer, secret: PossibleAnswer)
    requires
        v.wf(),
        valid_answer(g),
        valid_answer(secret),
        g != secret,
        v.is_candidate(index_of_answer(g)),
        v.is_candidate(index_of_answer(secret)),
    ensures
        ({
            let sc = score(secret, g);
            let w = v.after_result(g, sc.0 as u8, sc.1 as u8);
            &&& !w.is_candidate(index_of_answer(g))
            &&& w.is_candidate(index_of_answer(secret))
            &&& w.candidates_upto(w.last) < v.candidates_upto(v.last)
        }),
{
    let sc = score(secret, g);
    let cp = sc.0 as u8;
    let cs = sc.1 as u8;
    lemma_secret_survives(v, secret, g);
    let w = v.after_result(g, cp, cs);
    let gi = index_of_answer(g);
    lemma_answer_index_roundtrip(g);
    lemma_score_self(g);
    lemma_all_in_place(secret, g);
    lemma_score_bounds(secret, g);
    lemma_after_result(v, g, cp, cs, gi);
    assert(!consistent(gi, g, cp, cs));
    lemma_candidates_all_open(v);
    lemma_candidates_all_open(w);
    lemma_open_below_shrinks(v.known_false, w.known_false, POSSIBLE_ANSWERS as int, gi);
}

proof fn lemma_candidates_upto_bound(v: SolverState, hi: int, j: int)
    requires
        v.wf(),
        v.first <= hi <= v.last,
    ensures
        v.candidates_upto(hi) <= hi - v.first,
        (v.first <= j < hi && v.known_false[j]) ==> v.candidates_upto(hi) < hi - v.first,
    decreases hi - v.first,
{
    if hi > v.first {
        lemma_candidates_upto_bound(v, hi - 1, j);
    }
}

proof fn lemma_worst_le_candidates(v: SolverState, g: int)
    ensures
        v.worst_case(g) <= v.candidates_upto(v.last),
{
    assert forall|cp: int, cs: int| v.score_weight(g, cp, cs) <= v.candidates_upto(v.last) by {
        lemma_match_le_candidates(v, g, cp, cs, v.last);
    }
    assert forall|cp: int, n: int| n <= 5 implies v.worst_in_row(g, cp, n) <= v.candidates_upto(v.last) by {
        lemma_worst_in_row_le(v, g, cp, n);
    }
    lemma_worst_upto_le(v, g, 5);
}

proof fn lemma_worst_in_row_le(v: SolverState, g: int, cp: int, n: int)
    requires
        forall|a: int, b: int| v.score_weight(g, a, b) <= v.candidates_upto(v.last),
    ensures
        v.worst_in_row(g, cp, n) <= v.candidates_upto(v.last),
    decreases n,
{
    if n > 0 {
        lemma_worst_in_row_le(v, g, cp, n - 1);
    }
}

proof fn lemma_worst_upto_le(v: SolverState, g: int, m: int)
    requires
        forall|a: int, n: int| n <= 5 ==> v.worst_in_row(g, a, n) <= v.candidates_upto(v.last),
    ensures
        v.worst_upto(g, m) <= v.candidates_upto(v.last),
    decreases m,
{
    if m > 0 {
        lemma_worst_upto_le(v, g, m - 1);
    }
}

proof fn lemma_best_upto(v: SolverState, k: int)
    requires
        v.wf(),
        v.first <= k <= v.last,
    ensures
        v.best_upto(k).1 <= POSSIBLE_ANSWERS,
        v.best_upto(k).1 < POSSIBLE_ANSWERS ==> v.is_candidate(v.best_upto(k).0),
        forall|i: int|
            v.first <= i < k && v.is_candidate(i) ==> v.best_upto(k).1 <= v.worst_case(i),
    decreases k - v.first,
{
    if k > v.first {
        lemma_best_upto(v, k - 1);
    }
}

/// Once some answer has been ruled out, the search of `guess` (from the fourth attempt on)
/// proposes an answer that is still possible, whenever any is.
pub proof fn lemma_guess_is_candidate(v: SolverState, i: int, j: int)
    requires
        v.wf(),
        v.is_candidate(i),
        0 <= j < POSSIBLE_ANSWERS,
        v.known_false[j],
    ensures
        v.is_candidate(v.best_upto(v.last).0),
{
    lemma_worst_le_candidates(v, i);
    lemma_candidates_upto_bound(v, v.last, j);
    lemma_best_upto(v, v.last);
}


proof fn lemma_next_guess_valid(v: SolverState)
    requires
        v.wf(),
    ensures
        valid_answer(v.next_guess()),
{
    if v.attempt + 1 > 3 {
        lemma_best_upto(v, v.last);
        let b = v.best_upto(v.last);
        if b.1 < POSSIBLE_ANSWERS {
            lemma_index_answer_roundtrip(b.0);
        } else {
            lemma_best_upto_index(v, v.last);
            lemma_index_answer_roundtrip(b.0);
        }
    }
}

proof fn lemma_best_upto_index(v: SolverState, k: int)
    requires
        v.wf(),
        v.first <= k <= v.last,
    ensures
        0 <= v.best_upto(k).0 < POSSIBLE_ANSWERS,
    decreases k - v.first,
{
    if k > v.first {
        lemma_best_upto_index(v, k - 1);
    }
}

/// Once a guess that is not the secret has been scored against the secret, the next guess
/// is a different answer: the solver never proposes the same guess twice in a row.
pub proof fn lemma_no_repeated_guess(v: SolverState, secret: PossibleAnswer)
    requires
        v.wf(),
        valid_answer(secret),
        v.is_candidate(index_of_answer(secret)),
        v.next_guess() != secret,
    ensures
        ({
            let g = v.next_guess();
            let sc = score(secret, g);
            v.after_guess().after_result(g, sc.0 as u8, sc.1 as u8).next_guess() != g
        }),
{
    let g = v.next_guess();
    let sc = score(secret, g);
    let u = v.after_guess();
    let w = u.after_result(g, sc.0 as u8, sc.1 as u8);
    lemma_next_guess_valid(v);
    if v.attempt + 1 >= 3 {
        let ig = index_of_answer(g);
        let is = index_of_answer(secret);
        lemma_answer_index_roundtrip(g);
        lemma_answer_index_roundtrip(secret);
        lemma_score_self(g);
        lemma_all_in_place(secret, g);
        lemma_score_bounds(secret, g);
        lemma_secret_survives(u, secret, g);
        lemma_after_result(u, g, sc.0 as u8, sc.1 as u8, ig);
        assert(!consistent(ig, g, sc.0 as u8, sc.1 as u8));
        assert(!w.is_candidate(ig));
        assert(w.known_false[ig]);
        lemma_after_result(u, g, sc.0 as u8, sc.1 as u8, is);
        lemma_guess_is_candidate(w, is, ig);
        let b = w.best_upto(w.last).0;
        lemma_index_answer_roundtrip(b);
        if answer_of_index(b) == g {
            assert(b == ig);
        }
    }
}

} // verus!
