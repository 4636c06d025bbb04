use vstd::prelude::*;

use crate::hint::{generate_hint, hint_spec, Hint, LetterHint};
use crate::word::Word;

verus! {

/// The hints that the words of `dict` receive against `guess`, each once, in
/// the order of their first appearance.
pub open spec fn distinct_hints<const N: usize>(dict: Seq<Word<N>>, guess: Word<N>) -> Seq<
    Seq<LetterHint>,
>
    decreases dict.len(),
{
    if dict.len() == 0 {
        Seq::empty()
    } else {
        let prev = distinct_hints(dict.drop_last(), guess);
        let h = hint_spec(dict.last()@, guess@);
        if prev.contains(h) {
            prev
        } else {
            prev.push(h)
        }
    }
}

/// The words of `dict` whose hint against `guess` is `h`, in their order in `dict`.
pub open spec fn bucket<const N: usize>(
    dict: Seq<Word<N>>,
    guess: Word<N>,
    h: Seq<LetterHint>,
) -> Seq<Word<N>> {
    dict.filter(|w: Word<N>| hint_spec(w@, guess@) == h)
}

/// The partition of `dict` by hint against `guess`: one bucket per hint that
/// occurs, in the order in which the hints first occur.
pub open spec fn partition_spec<const N: usize>(dict: Seq<Word<N>>, guess: Word<N>) -> Seq<
    (Seq<LetterHint>, Seq<Word<N>>),
> {
    distinct_hints(dict, guess).map_values(|h: Seq<LetterHint>| (h, bucket(dict, guess, h)))
}

/// The mathematical value of a list of buckets.
pub open spec fn buckets_view<const N: usize>(p: Seq<(Hint<N>, Vec<Word<N>>)>) -> Seq<
    (Seq<LetterHint>, Seq<Word<N>>),
> {
    p.map_values(|e: (Hint<N>, Vec<Word<N>>)| (e.0@, e.1@))
}

/// The number of words over all the buckets.
pub open spec fn total_size<const N: usize>(p: Seq<(Seq<LetterHint>, Seq<Word<N>>)>) -> nat
    decreases p.len(),
{
    if p.len() == 0 {
        0
    } else {
        total_size(p.drop_last()) + p.last().1.len()
    }
}

proof fn lemma_distinct_hints_props<const N: usize>(dict: Seq<Word<N>>, guess: Word<N>)
    ensures
        distinct_hints(dict, guess).no_duplicates(),
        forall|i: int|
            0 <= i < distinct_hints(dict, guess).len() ==> exists|k: int|
                0 <= k < dict.len() && hint_spec(dict[k]@, guess@) == #[trigger] distinct_hints(
                    dict,
                    guess,
                )[i],
        forall|k: int|
            0 <= k < dict.len() ==> distinct_hints(dict, guess).contains(
                #[trigger] hint_spec(dict[k]@, guess@),
            ),
    decreases dict.len(),
{
    if dict.len() > 0 {
        let d = dict.drop_last();
        lemma_distinct_hints_props(d, guess);
        let prev = distinct_hints(d, guess);
        let h = hint_spec(dict.last()@, guess@);
        assert forall|k: int| 0 <= k < dict.len() implies distinct_hints(dict, guess).contains(
            #[trigger] hint_spec(dict[k]@, guess@),
        ) by {
            if k < dict.len() - 1 {
                assert(dict[k] == d[k]);
                assert(prev.contains(hint_spec(d[k]@, guess@)));
                if !prev.contains(h) {
                    let x = choose|x: int| 0 <= x < prev.len() && prev[x] == hint_spec(d[k]@, guess@);
                    assert(prev.push(h)[x] == prev[x]);
                }
            } else {
                if !prev.contains(h) {
                    assert(prev.push(h)[prev.len() as int] == h);
                }
            }
        }
        let keys = distinct_hints(dict, guess);
        assert forall|i: int| 0 <= i < keys.len() implies exists|k: int|
            0 <= k < dict.len() && hint_spec(dict[k]@, guess@) == #[trigger] keys[i] by {
            if i < prev.len() {
                assert(keys[i] == prev[i]);
                let k = choose|k: int| 0 <= k < d.len() && hint_spec(d[k]@, guess@) == prev[i];
                assert(dict[k] == d[k]);
            } else {
                assert(hint_spec(dict[dict.len() - 1]@, guess@) == keys[i]);
            }
        }
    }
}

/// Adding one word to the dictionary adds it to the end of the bucket of its
/// hint, or opens a new bucket at the end.
proof fn lemma_partition_push<const N: usize>(d: Seq<Word<N>>, w: Word<N>, guess: Word<N>)
    ensures
        ({
            let h = hint_spec(w@, guess@);
            let p = partition_spec(d, guess);
            let keys = distinct_hints(d, guess);
            &&& forall|j: int|
                0 <= j < p.len() && keys[j] == h ==> partition_spec(d.push(w), guess)
                    == p.update(j, (h, p[j].1.push(w)))
            &&& !keys.contains(h) ==> partition_spec(d.push(w), guess) == p.push(
                (h, Seq::empty().push(w)),
            )
        }),
{
    let h = hint_spec(w@, guess@);
    let p = partition_spec(d, guess);
    let keys = distinct_hints(d, guess);
    let d2 = d.push(w);
    assert(d2.drop_last() =~= d);
    let pred = |x: Word<N>| hint_spec(x@, guess@) == h;
    d.lemma_filter_push(w, pred);
    lemma_distinct_hints_props(d, guess);
    assert forall|k: Seq<LetterHint>| k != h implies #[trigger] bucket(d2, guess, k) == bucket(
        d,
        guess,
        k,
    ) by {
        d.lemma_filter_push(w, |x: Word<N>| hint_spec(x@, guess@) == k);
    }
    assert forall|j: int| 0 <= j < p.len() && keys[j] == h implies partition_spec(d2, guess)
        == p.update(j, (h, p[j].1.push(w))) by {
        assert(keys.contains(h));
        assert(distinct_hints(d2, guess) == keys);
        assert(partition_spec(d2, guess) =~= p.update(j, (h, p[j].1.push(w))));
    }
    if !keys.contains(h) {
        assert(bucket(d, guess, h) =~= Seq::<Word<N>>::empty()) by {
            if bucket(d, guess, h).len() > 0 {
                let x = bucket(d, guess, h)[0];
                d.lemma_filter_pred(pred, 0);
                assert(d.filter(pred).contains(x));
                d.lemma_filter_contains_rev(pred, x);
                let k = choose|k: int| 0 <= k < d.len() && d[k] == x;
                assert(keys.contains(hint_spec(d[k]@, guess@)));
            }
        }
        assert(distinct_hints(d2, guess) == keys.push(h));
        assert(partition_spec(d2, guess) =~= p.push((h, Seq::empty().push(w))));
    }
}

proof fn lemma_total_size_update<const N: usize>(
    p: Seq<(Seq<LetterHint>, Seq<Word<N>>)>,
    j: int,
    e: (Seq<LetterHint>, Seq<Word<N>>),
)
    requires
        0 <= j < p.len(),
    ensures
        total_size(p.update(j, e)) == total_size(p) - p[j].1.len() + e.1.len(),
    decreases p.len(),
{
    let q = p.update(j, e);
    if j == p.len() - 1 {
        assert(q.drop_last() =~= p.drop_last());
    } else {
        assert(q.drop_last() =~= p.drop_last().update(j, e));
        lemma_total_size_update(p.drop_last(), j, e);
    }
}

proof fn lemma_partition_complete<const N: usize>(dict: Seq<Word<N>>, guess: Word<N>)
    ensures
        forall|k: int|
            #![trigger dict[k]]
            0 <= k < dict.len() ==> exists|i: int|
                0 <= i < partition_spec(dict, guess).len() && #[trigger] partition_spec(
                    dict,
                    guess,
                )[i].0 == hint_spec(dict[k]@, guess@),
        forall|i: int, k: int|
            0 <= i < partition_spec(dict, guess).len() && 0 <= k < dict.len()
                && partition_spec(dict, guess)[i].0 == hint_spec(dict[k]@, guess@)
                ==> #[trigger] partition_spec(dict, guess)[i].1.contains(#[trigger] dict[k]),
{
    let p = partition_spec(dict, guess);
    let keys = distinct_hints(dict, guess);
    lemma_distinct_hints_props(dict, guess);
    assert forall|k: int| #![trigger dict[k]] 0 <= k < dict.len() implies exists|i: int|
        0 <= i < p.len() && #[trigger] p[i].0 == hint_spec(dict[k]@, guess@) by {
        let h = hint_spec(dict[k]@, guess@);
        let i = choose|i: int| 0 <= i < keys.len() && keys[i] == h;
        assert(p[i].0 == h);
    }
    assert forall|i: int, k: int|
        0 <= i < p.len() && 0 <= k < dict.len() && p[i].0 == hint_spec(dict[k]@, guess@)
            implies #[trigger] p[i].1.contains(#[trigger] dict[k]) by {
        let h = hint_spec(dict[k]@, guess@);
        dict.lemma_filter_contains(|w: Word<N>| hint_spec(w@, guess@) == h, k);
        assert(p[i] == (h, bucket(dict, guess, h)));
    }
}

/// The buckets of a partition never share a word, the hint of every word of
/// the dictionary has a bucket, every word lies in the bucket of its hint, no
/// bucket is empty, and the bucket sizes add up to the size of
/// the dictionary.
pub proof fn lemma_partition_disjoint_and_complete<const N: usize>(
    dict: Seq<Word<N>>,
    guess: Word<N>,
)
    ensures
        ({
            let p = partition_spec(dict, guess);
            &&& forall|i: int, j: int, w: Word<N>|
                0 <= i < p.len() && 0 <= j < p.len() && i != j && #[trigger] p[i].1.contains(w)
                    ==> !#[trigger] p[j].1.contains(w)
            &&& forall|k: int|
                #![trigger dict[k]]
                0 <= k < dict.len() ==> exists|i: int|
                    0 <= i < p.len() && #[trigger] p[i].0 == hint_spec(dict[k]@, guess@)
            &&& forall|i: int, k: int|
                0 <= i < p.len() && 0 <= k < dict.len() && p[i].0 == hint_spec(dict[k]@, guess@)
                    ==> #[trigger] p[i].1.contains(#[trigger] dict[k])
            &&& forall|i: int| 0 <= i < p.len() ==> #[trigger] p[i].1.len() > 0
            &&& total_size(p) == dict.len()
        }),
    decreases dict.len(),
{
    let p = partition_spec(dict, guess);
    let keys = distinct_hints(dict, guess);
    lemma_distinct_hints_props(dict, guess);
    assert forall|i: int, j: int, w: Word<N>|
        0 <= i < p.len() && 0 <= j < p.len() && i != j && #[trigger] p[i].1.contains(w) implies !#[trigger] p[j].1.contains(w) by {
        let pi = |x: Word<N>| hint_spec(x@, guess@) == keys[i];
        let pj = |x: Word<N>| hint_spec(x@, guess@) == keys[j];
        if p[j].1.contains(w) {
            let a = choose|a: int| 0 <= a < p[i].1.len() && p[i].1[a] == w;
            let b = choose|b: int| 0 <= b < p[j].1.len() && p[j].1[b] == w;
            dict.lemma_filter_pred(pi, a);
            dict.lemma_filter_pred(pj, b);
        }
    }
    lemma_partition_complete(dict, guess);
    assert forall|i: int| 0 <= i < p.len() implies #[trigger] p[i].1.len() > 0 by {
        let k = choose|k: int| 0 <= k < dict.len() && hint_spec(dict[k]@, guess@) == keys[i];
        assert(p[i].1.contains(dict[k]));
    }
    if dict.len() > 0 {
        let d = dict.drop_last();
        let w = dict.last();
        assert(d.push(w) =~= dict);
        lemma_partition_disjoint_and_complete(d, guess);
        lemma_partition_push(d, w, guess);
        let h = hint_spec(w@, guess@);
        let pd = partition_spec(d, guess);
        if distinct_hints(d, guess).contains(h) {
            let j = choose|j: int| 0 <= j < distinct_hints(d, guess).len() && distinct_hints(d, guess)[j] == h;
            assert(pd.len() == distinct_hints(d, guess).len());
            lemma_total_size_update(pd, j, (h, pd[j].1.push(w)));
            assert(p == pd.update(j, (h, pd[j].1.push(w))));
        } else {
            let q = pd.push((h, Seq::empty().push(w)));
            assert(q.drop_last() =~= pd);
            assert(p == q);
        }
    }
}

/// Partitioning is deterministic: dictionaries that spell the same words in
/// the same order, and guesses that spell the same word, give the same
/// buckets, with the same words in the same order.
pub proof fn lemma_partition_deterministic<const N: usize>(
    dict1: Seq<Word<N>>,
    dict2: Seq<Word<N>>,
    guess1: Word<N>,
    guess2: Word<N>,
)
    requires
        dict1.map_values(|w: Word<N>| w@) == dict2.map_values(|w: Word<N>| w@),
        guess1@ == guess2@,
    ensures
        partition_spec(dict1, guess1) == partition_spec(dict2, guess2),
{
    Word::lemma_view_eq(guess1, guess2);
    assert(dict1.len() == dict1.map_values(|w: Word<N>| w@).len());
    assert(dict2.len() == dict2.map_values(|w: Word<N>| w@).len());
    assert forall|k: int| 0 <= k < dict1.len() implies dict1[k] == dict2[k] by {
        assert(dict1.map_values(|w: Word<N>| w@)[k] == dict2.map_values(|w: Word<N>| w@)[k]);
        Word::lemma_view_eq(dict1[k], dict2[k]);
    }
    assert(dict1 =~= dict2);
}

/// Groups `dictionary` by the hint each word would give against `guess`:
/// one bucket per hint that occurs, in order of first occurrence, each holding
/// its words in dictionary order.
pub fn partition<const N: usize>(dictionary: &[Word<N>], guess: Word<N>) -> (r: Vec<
    (Hint<N>, Vec<Word<N>>),
>)
    ensures
        buckets_view(r@) == partition_spec(dictionary@, guess),
{
    let mut output: Vec<(Hint<N>, Vec<Word<N>>)> = Vec::new();
    let mut i: usize = 0;
    while i < dictionary.len()
        invariant
            i <= dictionary@.len(),
            buckets_view(output@) == partition_spec(dictionary@.take(i as int), guess),
        decreases dictionary@.len() - i,
    {
        let word = dictionary[i];
        let hint = generate_hint(word, guess);
        let ghost d = dictionary@.take(i as int);
        let ghost keys = distinct_hints(d, guess);
        proof {
            assert(dictionary@.take(i + 1) =~= d.push(word));
            lemma_partition_push(d, word, guess);
        }
        assert(buckets_view(output@).len() == output@.len());
        assert(partition_spec(d, guess).len() == keys.len());
        let mut j: usize = 0;
        let mut found = false;
        while j < output.len()
            invariant_except_break
                !found,
            invariant
                j <= output@.len(),
                buckets_view(output@) == partition_spec(d, guess),
                keys == distinct_hints(d, guess),
                keys.len() == output@.len(),
                forall|k: int| 0 <= k < j ==> #[trigger] keys[k] != hint@,
            ensures
                found ==> j < output@.len() && keys[j as int] == hint@,
                !found ==> j == output@.len(),
            decreases output@.len() - j,
        {
            assert(buckets_view(output@)[j as int].0 == output@[j as int].0@);
            assert(partition_spec(d, guess)[j as int].0 == keys[j as int]);
            if output[j].0 == hint {
                found = true;
                break;
            }
            j = j + 1;
        }
        if found {
            let ghost old_out = output@;
            output[j].1.push(word);
            proof {
                assert(buckets_view(output@) =~= buckets_view(old_out).update(
                    j as int,
                    (hint@, buckets_view(old_out)[j as int].1.push(word)),
                ));
            }
        } else {
            proof {
                assert(!keys.contains(hint@)) by {
                    if keys.contains(hint@) {
                        let k = choose|k: int| 0 <= k < keys.len() && keys[k] == hint@;
                        assert(keys[k] != hint@);
                    }
                }
            }
            let mut fresh: Vec<Word<N>> = Vec::new();
            fresh.push(word);
            let ghost old_out = output@;
            output.push((hint, fresh));
            proof {
                assert(buckets_view(output@) =~= buckets_view(old_out).push(
                    (hint@, Seq::empty().push(word)),
                ));
            }
        }
        i = i + 1;
    }
    proof {
        assert(dictionary@.take(i as int) =~= dictionary@);
    }
    output
}

} // verus!
