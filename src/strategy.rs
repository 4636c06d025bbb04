use vstd::prelude::*;

use crate::hint::{is_all_green, Hint, LetterHint};
use crate::partition::{
    buckets_view, lemma_partition_disjoint_and_complete, partition, partition_spec, total_size,
};
use crate::word::Word;

verus! {

/// How the solver weighs the partition that a guess would produce; lower is better.
#[derive(Clone, Copy, Debug, PartialEq, Eq, Structural)]
pub enum ScoringPolicy {
    /// The size of the largest bucket, leaving out the bucket of the all-Green hint.
    Minimax,
    /// The sum of the squares of the bucket sizes.
    SumOfSquares,
}

/// The sum of the squares of the bucket sizes.
pub open spec fn sum_of_squares<const N: usize>(p: Seq<(Seq<LetterHint>, Seq<Word<N>>)>) -> nat
    decreases p.len(),
{
    if p.len() == 0 {
        0
    } else {
        sum_of_squares(p.drop_last()) + p.last().1.len() * p.last().1.len()
    }
}

/// The size of the largest bucket whose hint is not all Green, or 0 if there is none.
pub open spec fn largest_open_bucket<const N: usize>(p: Seq<(Seq<LetterHint>, Seq<Word<N>>)>) -> nat
    decreases p.len(),
{
    if p.len() == 0 {
        0
    } else {
        let rest = largest_open_bucket(p.drop_last());
        if is_all_green(p.last().0) || p.last().1.len() <= rest {
            rest
        } else {
            p.last().1.len()
        }
    }
}

/// The cost of a partition under `policy`.
pub open spec fn cost_spec<const N: usize>(
    p: Seq<(Seq<LetterHint>, Seq<Word<N>>)>,
    policy: ScoringPolicy,
) -> nat {
    match policy {
        ScoringPolicy::Minimax => largest_open_bucket(p),
        ScoringPolicy::SumOfSquares => sum_of_squares(p),
    }
}

proof fn lemma_sum_of_squares_bound<const N: usize>(p: Seq<(Seq<LetterHint>, Seq<Word<N>>)>)
    ensures
        sum_of_squares(p) <= total_size(p) * total_size(p),
    decreases p.len(),
{
    if p.len() > 0 {
        lemma_sum_of_squares_bound(p.drop_last());
        let a = total_size(p.drop_last());
        let b = p.last().1.len();
        let s = sum_of_squares(p.drop_last());
        assert(s + b * b <= (a + b) * (a + b)) by (nonlinear_arith)
            requires
                s <= a * a,
        ;
    }
}

/// The sum of the squares of the bucket sizes.
pub fn partition_score<const N: usize>(partition: &[(Hint<N>, Vec<Word<N>>)]) -> (r: u128)
    requires
        total_size(buckets_view(partition@)) <= usize::MAX,
    ensures
        r == sum_of_squares(buckets_view(partition@)),
{
    let ghost p = buckets_view(partition@);
    let mut sum: u128 = 0;
    let mut i: usize = 0;
    while i < partition.len()
        invariant
            i <= partition@.len(),
            p == buckets_view(partition@),
            total_size(p) <= usize::MAX,
            sum == sum_of_squares(p.take(i as int)),
            total_size(p.take(i as int)) <= total_size(p),
        decreases partition@.len() - i,
    {
        let len = partition[i].1.len();
        proof {
            let q = p.take(i + 1);
            assert(q.drop_last() =~= p.take(i as int));
            assert(q.last().1.len() == len);
            lemma_sum_of_squares_bound(q);
            lemma_total_size_prefix(p, i + 1);
            assert(total_size(q) * total_size(q) <= 0xffff_ffff_ffff_ffffu128 as int
                * 0xffff_ffff_ffff_ffffu128 as int) by (nonlinear_arith)
                requires
                    total_size(q) <= 0xffff_ffff_ffff_ffff,
            ;
        }
        let sq = (len as u128) * (len as u128);
        sum = sum + sq;
        i = i + 1;
    }
    proof {
        assert(p.take(i as int) =~= p);
    }
    sum
}

proof fn lemma_total_size_prefix<const N: usize>(p: Seq<(Seq<LetterHint>, Seq<Word<N>>)>, n: int)
    requires
        0 <= n <= p.len(),
    ensures
        total_size(p.take(n)) <= total_size(p),
    decreases p.len(),
{
    if n < p.len() {
        assert(p.drop_last().take(n) =~= p.take(n));
        lemma_total_size_prefix(p.drop_last(), n);
    } else {
        assert(p.take(n) =~= p);
    }
}

/// The size of the largest bucket whose hint is not all Green, or 0 if there is none.
pub fn largest_open_bucket_size<const N: usize>(partition: &[(Hint<N>, Vec<Word<N>>)]) -> (r: usize)
    ensures
        r == largest_open_bucket(buckets_view(partition@)),
{
    let ghost p = buckets_view(partition@);
    let mut best: usize = 0;
    let mut i: usize = 0;
    while i < partition.len()
        invariant
            i <= partition@.len(),
            p == buckets_view(partition@),
            best == largest_open_bucket(p.take(i as int)),
        decreases partition@.len() - i,
    {
        proof {
            assert(p.take(i + 1).drop_last() =~= p.take(i as int));
        }
        let len = partition[i].1.len();
        if !partition[i].0.is_win() && len > best {
            best = len;
        }
        i = i + 1;
    }
    proof {
        assert(p.take(i as int) =~= p);
    }
    best
}

/// The cost of a partition under `policy`.
pub fn partition_cost<const N: usize>(
    partition: &[(Hint<N>, Vec<Word<N>>)],
    policy: ScoringPolicy,
) -> (r: u128)
    requires
        total_size(buckets_view(partition@)) <= usize::MAX,
    ensures
        r == cost_spec(buckets_view(partition@), policy),
{
    match policy {
        ScoringPolicy::Minimax => largest_open_bucket_size(partition) as u128,
        ScoringPolicy::SumOfSquares => partition_score(partition),
    }
}

/// Whether `words` holds `w`.
fn contains_word<const N: usize>(words: &[Word<N>], w: &Word<N>) -> (r: bool)
    ensures
        r == words@.contains(*w),
{
    let mut i: usize = 0;
    while i < words.len()
        invariant
            i <= words@.len(),
            forall|k: int| 0 <= k < i ==> words@[k] != *w,
        decreases words@.len() - i,
    {
        proof {
            Word::lemma_view_eq(words@[i as int], *w);
        }
        if words[i] == *w {
            proof {
                Word::lemma_view_eq(words@[i as int], *w);
                assert(words@[i as int] == *w);
            }
            return true;
        }
        i = i + 1;
    }
    false
}

/// The rank of `guess` for the solver: its cost doubled, plus one when it is
/// not itself a candidate. Lower is better; cost decides before membership.
pub open spec fn guess_rank<const N: usize>(
    candidates: Seq<Word<N>>,
    guess: Word<N>,
    policy: ScoringPolicy,
) -> int {
    2 * cost_spec(partition_spec(candidates, guess), policy) + if candidates.contains(guess) {
        0int
    } else {
        1int
    }
}

/// Whether `i` is the solver's pick from `pool`: a guess of least rank, the
/// first such in pool order.
pub open spec fn is_best_guess<const N: usize>(
    pool: Seq<Word<N>>,
    candidates: Seq<Word<N>>,
    policy: ScoringPolicy,
    i: int,
) -> bool {
    &&& 0 <= i < pool.len()
    &&& forall|j: int|
        0 <= j < pool.len() ==> guess_rank(candidates, pool[i], policy) <= #[trigger] guess_rank(
            candidates,
            pool[j],
            policy,
        )
    &&& forall|j: int|
        0 <= j < i ==> guess_rank(candidates, pool[i], policy) < #[trigger] guess_rank(
            candidates,
            pool[j],
            policy,
        )
}

/// Picks the guess of `pool` whose partition of `candidates` costs least under
/// `policy`, preferring a guess that is itself a candidate on equal cost and
/// the earliest in pool order after that. Returns its index and its partition.
pub fn best_guess<const N: usize>(
    pool: &[Word<N>],
    candidates: &[Word<N>],
    policy: ScoringPolicy,
) -> (r: Option<(usize, Vec<(Hint<N>, Vec<Word<N>>)>)>)
    ensures
        r is None <==> pool@.len() == 0,
        r matches Some((i, p)) ==> is_best_guess(pool@, candidates@, policy, i as int)
            && buckets_view(p@) == partition_spec(candidates@, pool@[i as int]),
{
    let mut best: Option<(usize, Vec<(Hint<N>, Vec<Word<N>>)>)> = None;
    let mut best_cost: u128 = 0;
    let mut best_member: bool = false;
    let mut j: usize = 0;
    while j < pool.len()
        invariant
            j <= pool@.len(),
            best is None <==> j == 0,
            best matches Some((bi, bp)) ==> {
                &&& bi < j
                &&& buckets_view(bp@) == partition_spec(candidates@, pool@[bi as int])
                &&& best_cost == cost_spec(buckets_view(bp@), policy)
                &&& best_member == candidates@.contains(pool@[bi as int])
                &&& forall|k: int|
                    0 <= k < j ==> guess_rank(candidates@, pool@[bi as int], policy)
                        <= #[trigger] guess_rank(candidates@, pool@[k], policy)
                &&& forall|k: int|
                    0 <= k < bi ==> guess_rank(candidates@, pool@[bi as int], policy)
                        < #[trigger] guess_rank(candidates@, pool@[k], policy)
            },
        decreases pool@.len() - j,
    {
        let guess = pool[j];
        let n: usize = candidates.len();
        let p = partition(candidates, guess);
        proof {
            lemma_partition_disjoint_and_complete(candidates@, guess);
            assert(total_size(buckets_view(p@)) == n);
        }
        let cost = partition_cost(&p, policy);
        let member = contains_word(candidates, &guess);
        let better = match &best {
            None => true,
            Some(_) => cost < best_cost || (cost == best_cost && member && !best_member),
        };
        if better {
            best = Some((j, p));
            best_cost = cost;
            best_member = member;
        }
        j = j + 1;
    }
    best
}

/// Why the solver cannot go on from a hint.
#[derive(Clone, Copy, Debug, PartialEq, Eq, Structural)]
pub enum StrategyError {
    /// The hint is not one that the presented guess can receive from any
    /// remaining candidate.
    InconsistentHint,
}

/// A copy of `words`.
fn copy_words<const N: usize>(words: &Vec<Word<N>>) -> (r: Vec<Word<N>>)
    ensures
        r@ == words@,
{
    let mut out: Vec<Word<N>> = Vec::new();
    let mut i: usize = 0;
    while i < words.len()
        invariant
            i <= words@.len(),
            out@ == words@.take(i as int),
        decreases words@.len() - i,
    {
        out.push(words[i]);
        i = i + 1;
        proof {
            assert(out@ =~= words@.take(i as int));
        }
    }
    proof {
        assert(words@.take(i as int) =~= words@);
    }
    out
}

/// The candidates that remain after `hint` was received: the bucket of
/// `partition` whose hint is `hint`, or an error if it has none.
pub fn next_candidates<const N: usize>(
    partition: &[(Hint<N>, Vec<Word<N>>)],
    hint: &Hint<N>,
) -> (r: Result<Vec<Word<N>>, StrategyError>)
    ensures
        r is Ok <==> exists|j: int| 0 <= j < partition@.len() && #[trigger] partition@[j].0@ == hint@,
        r matches Ok(ws) ==> exists|j: int|
            {
                &&& 0 <= j < partition@.len()
                &&& #[trigger] partition@[j].0@ == hint@
                &&& ws@ == partition@[j].1@
                &&& forall|k: int| 0 <= k < j ==> partition@[k].0@ != hint@
            },
{
    let mut j: usize = 0;
    while j < partition.len()
        invariant
            j <= partition@.len(),
            forall|k: int| 0 <= k < j ==> partition@[k].0@ != hint@,
        decreases partition@.len() - j,
    {
        if partition[j].0 == *hint {
            return Ok(copy_words(&partition[j].1));
        }
        j = j + 1;
    }
    Err(StrategyError::InconsistentHint)
}

/// Where a game stands, judged by its remaining candidates.
#[derive(Clone, Copy, Debug)]
pub enum GameStatus<const N: usize> {
    /// More than one candidate remains.
    Active,
    /// Exactly one candidate remains: it is the secret.
    Solved(Word<N>),
    /// No candidate remains: some hint was wrong, or the secret is not in the list.
    Contradiction,
}

/// The status of a game with these remaining candidates.
pub fn game_status<const N: usize>(candidates: &[Word<N>]) -> (r: GameStatus<N>)
    ensures
        r is Contradiction <==> candidates@.len() == 0,
        r is Active <==> candidates@.len() > 1,
        r is Solved <==> candidates@.len() == 1,
        r matches GameStatus::Solved(w) ==> w == candidates@[0],
{
    if candidates.len() == 0 {
        GameStatus::Contradiction
    } else if candidates.len() == 1 {
        GameStatus::Solved(candidates[0])
    } else {
        GameStatus::Active
    }
}

/// How much the adversary values a bucket: its size, but nothing for the
/// all-Green bucket, which would give the secret away.
pub open spec fn adversary_value<const N: usize>(e: (Seq<LetterHint>, Seq<Word<N>>)) -> nat {
    if is_all_green(e.0) {
        0
    } else {
        e.1.len()
    }
}

/// Whether `i` is the adversary's pick: a bucket of greatest value, the first such.
pub open spec fn is_adversary_choice<const N: usize>(
    p: Seq<(Seq<LetterHint>, Seq<Word<N>>)>,
    i: int,
) -> bool {
    &&& 0 <= i < p.len()
    &&& forall|j: int| 0 <= j < p.len() ==> #[trigger] adversary_value(p[j]) <= adversary_value(p[i])
    &&& forall|j: int| 0 <= j < i ==> #[trigger] adversary_value(p[j]) < adversary_value(p[i])
}

/// The index of the bucket the adversary keeps, or `None` for an empty partition.
pub fn adversary_choice<const N: usize>(partition: &[(Hint<N>, Vec<Word<N>>)]) -> (r: Option<usize>)
    ensures
        r is None <==> partition@.len() == 0,
        r matches Some(i) ==> is_adversary_choice(buckets_view(partition@), i as int),
{
    let ghost p = buckets_view(partition@);
    if partition.len() == 0 {
        return None;
    }
    let mut best: usize = 0;
    let mut best_value: usize = if partition[0].0.is_win() {
        0
    } else {
        partition[0].1.len()
    };
    let mut j: usize = 1;
    while j < partition.len()
        invariant
            1 <= j <= partition@.len(),
            p == buckets_view(partition@),
            best < j,
            best_value == adversary_value(p[best as int]),
            forall|k: int| 0 <= k < j ==> #[trigger] adversary_value(p[k]) <= best_value,
            forall|k: int| 0 <= k < best ==> #[trigger] adversary_value(p[k]) < best_value,
        decreases partition@.len() - j,
    {
        let value = if partition[j].0.is_win() {
            0
        } else {
            partition[j].1.len()
        };
        if value > best_value {
            best = j;
            best_value = value;
        }
        j = j + 1;
    }
    Some(best)
}

/// One round of the adversary: partitions `candidates` by `guess` and keeps
/// the bucket of greatest value. Returns its hint and its words, or `None`
/// when no candidate is left. The kept bucket is never empty.
pub fn adversary_round<const N: usize>(candidates: &[Word<N>], guess: Word<N>) -> (r: Option<
    (Hint<N>, Vec<Word<N>>),
>)
    ensures
        r is None <==> candidates@.len() == 0,
        r matches Some((h, ws)) ==> {
            &&& ws@.len() > 0
            &&& exists|i: int|
                is_adversary_choice(partition_spec(candidates@, guess), i) && #[trigger] partition_spec(
                    candidates@,
                    guess,
                )[i] == (h@, ws@)
        },
{
    let mut p = partition(candidates, guess);
    proof {
        lemma_partition_disjoint_and_complete(candidates@, guess);
    }
    match adversary_choice(&p) {
        None => None,
        Some(i) => {
            let ghost before = p@;
            let chosen = p.remove(i);
            proof {
                assert(buckets_view(before)[i as int] == (chosen.0@, chosen.1@));
                assert(partition_spec(candidates@, guess)[i as int] == (chosen.0@, chosen.1@));
                assert(partition_spec(candidates@, guess)[i as int].1.len() > 0);
            }
            Some(chosen)
        },
    }
}

} // verus!
