//! The frequency map of one payload: every distinct token gets a rank, the
//! most frequent token rank 0, ties going to the smaller token.

use crate::sort::{entry_leq, sort_entries, sorted};
use std::collections::HashMap;
use vstd::prelude::*;
use vstd::relations::*;
use vstd::seq_lib::*;

verus! {

/// How often `token` occurs in `ids`.
pub open spec fn occurrences(ids: Seq<i32>, token: i32) -> nat
    decreases ids.len(),
{
    if ids.len() == 0 {
        0
    } else {
        occurrences(ids.drop_last(), token) + if ids.last() == token {
            1nat
        } else {
            0nat
        }
    }
}

/// Whether `a` ranks before `b`: it occurs more often, or as often and is
/// the smaller token.
pub open spec fn ranks_before(ids: Seq<i32>, a: i32, b: i32) -> bool {
    occurrences(ids, a) > occurrences(ids, b) || (occurrences(ids, a) == occurrences(ids, b) && a
        < b)
}

/// Whether `order` lists the distinct tokens of `ids` by rank: it holds the
/// tokens of `ids` and no others, and each of its tokens ranks before all
/// that follow it.
pub open spec fn is_ranking(ids: Seq<i32>, order: Seq<i32>) -> bool {
    &&& forall|t: i32| order.contains(t) <==> ids.contains(t)
    &&& forall|i: int, j: int|
        0 <= i < j < order.len() ==> ranks_before(ids, #[trigger] order[i], #[trigger] order[j])
}

/// The ranking of `ids`: the one sequence that [`is_ranking`] holds of.
pub open spec fn ranking(ids: Seq<i32>) -> Seq<i32> {
    choose|order: Seq<i32>| is_ranking(ids, order)
}

/// Whether `order` can be a rank table: no token stands in it twice, and
/// every rank fits a signed 32-bit integer.
pub open spec fn is_rank_table(order: Seq<i32>) -> bool {
    &&& order.no_duplicates()
    &&& order.len() <= 0x8000_0000
}

/// The rank of a token in a rank table, if the table holds it.
pub open spec fn rank_of(order: Seq<i32>, token: i32) -> Option<i32> {
    if order.contains(token) {
        Some(order.index_of(token) as i32)
    } else {
        None
    }
}

/// The token of a rank in a rank table, if the table reaches that far.
pub open spec fn token_at_rank(order: Seq<i32>, rank: i32) -> Option<i32> {
    if 0 <= rank < order.len() {
        Some(order[rank as int])
    } else {
        None
    }
}

/// In a rank table, the token of a valid rank has that rank.
pub proof fn lemma_rank_of_token_at_rank(order: Seq<i32>, rank: i32)
    requires
        is_rank_table(order),
        0 <= rank < order.len(),
    ensures
        token_at_rank(order, rank) == Some(order[rank as int]),
        rank_of(order, order[rank as int]) == Some(rank),
{
    let token = order[rank as int];
    assert(order.contains(token));
    let k = order.index_of(token);
    assert(0 <= k < order.len() && order[k] == token);
}

/// In a rank table, the rank of a token that it holds is valid and leads
/// back to the token.
pub proof fn lemma_token_at_rank_of(order: Seq<i32>, token: i32)
    requires
        is_rank_table(order),
        order.contains(token),
    ensures
        rank_of(order, token) is Some,
        0 <= rank_of(order, token).unwrap() < order.len(),
        token_at_rank(order, rank_of(order, token).unwrap()) == Some(token),
{
    let k = order.index_of(token);
    assert(0 <= k < order.len() && order[k] == token);
}

/// No token occurs more often than the sequence is long.
pub proof fn lemma_occurrences_bound(ids: Seq<i32>, token: i32)
    ensures
        occurrences(ids, token) <= ids.len(),
    decreases ids.len(),
{
    if ids.len() > 0 {
        lemma_occurrences_bound(ids.drop_last(), token);
    }
}

/// A token occurs at least once exactly if the sequence contains it.
pub proof fn lemma_occurrences_contains(ids: Seq<i32>, token: i32)
    ensures
        ids.contains(token) <==> occurrences(ids, token) > 0,
    decreases ids.len(),
{
    if ids.len() > 0 {
        lemma_occurrences_contains(ids.drop_last(), token);
        if ids.contains(token) {
            let k = choose|k: int| 0 <= k < ids.len() && ids[k] == token;
            if k < ids.len() - 1 {
                assert(ids.drop_last()[k] == token);
            }
        }
        if ids.drop_last().contains(token) {
            let k = choose|k: int| 0 <= k < ids.drop_last().len() && ids.drop_last()[k] == token;
            assert(ids[k] == token);
        }
        if ids.last() == token {
            assert(ids[ids.len() - 1] == token);
        }
    }
}

/// What one more element does to the prefix of a sequence: to what the
/// prefix contains and to how often a token occurs in it.
proof fn lemma_prefix_step(ids: Seq<i32>, i: int)
    requires
        0 <= i < ids.len(),
    ensures
        forall|t: i32|
            #[trigger] ids.take(i + 1).contains(t) <==> ids.take(i).contains(t) || t == ids[i],
        forall|t: i32| #[trigger]
            occurrences(ids.take(i + 1), t) == occurrences(ids.take(i), t) + if ids[i] == t {
                1nat
            } else {
                0nat
            },
{
    let longer = ids.take(i + 1);
    assert(longer.drop_last() =~= ids.take(i));
    assert(longer.last() == ids[i]);
    assert forall|t: i32| #[trigger]
        longer.contains(t) <==> ids.take(i).contains(t) || t == ids[i] by {
        if longer.contains(t) {
            let k = choose|k: int| 0 <= k < longer.len() && longer[k] == t;
            if k < i {
                assert(ids.take(i)[k] == t);
            }
        }
        if ids.take(i).contains(t) {
            let k = choose|k: int| 0 <= k < ids.take(i).len() && ids.take(i)[k] == t;
            assert(longer[k] == t);
        }
        if t == ids[i] {
            assert(longer[i] == t);
        }
    }
}

/// Two sequences without duplicates that contain the same elements hold
/// each element as often.
proof fn lemma_same_elements(a: Seq<i32>, b: Seq<i32>)
    requires
        a.no_duplicates(),
        b.no_duplicates(),
        forall|t: i32| a.contains(t) <==> b.contains(t),
    ensures
        a.to_multiset() == b.to_multiset(),
{
    broadcast use {vstd::multiset::group_multiset_axioms, group_to_multiset_ensures};

    a.lemma_multiset_has_no_duplicates();
    b.lemma_multiset_has_no_duplicates();
    assert forall|t: i32| a.to_multiset().count(t) == b.to_multiset().count(t) by {
        if a.contains(t) {
            assert(b.contains(t));
            assert(a.to_multiset().count(t) > 0);
            assert(b.to_multiset().count(t) > 0);
        } else {
            assert(!b.contains(t));
        }
    }
    assert(a.to_multiset() =~= b.to_multiset());
}

/// The order "ranks before, or is the same token" is total.
proof fn lemma_rank_order_total(ids: Seq<i32>)
    ensures
        total_ordering(|x: i32, y: i32| x == y || ranks_before(ids, x, y)),
{
    let leq = |x: i32, y: i32| x == y || ranks_before(ids, x, y);
    assert(reflexive(leq));
    assert(antisymmetric(leq));
    assert(transitive(leq));
    assert(strongly_connected(leq));
}

/// A ranking holds no token twice.
pub proof fn lemma_ranking_distinct(ids: Seq<i32>, order: Seq<i32>)
    requires
        is_ranking(ids, order),
    ensures
        order.no_duplicates(),
{
    assert forall|i: int, j: int| 0 <= i < order.len() && 0 <= j < order.len() && i != j implies
        order[i] != order[j] by {
        if i < j {
            assert(ranks_before(ids, order[i], order[j]));
        } else {
            assert(ranks_before(ids, order[j], order[i]));
        }
    }
}

/// A sequence of tokens has one ranking only.
pub proof fn lemma_ranking_unique(ids: Seq<i32>, a: Seq<i32>, b: Seq<i32>)
    requires
        is_ranking(ids, a),
        is_ranking(ids, b),
    ensures
        a == b,
{
    let leq = |x: i32, y: i32| x == y || ranks_before(ids, x, y);
    lemma_rank_order_total(ids);
    lemma_ranking_distinct(ids, a);
    lemma_ranking_distinct(ids, b);
    lemma_same_elements(a, b);
    assert(sorted_by(a, leq));
    assert(sorted_by(b, leq));
    lemma_sorted_unique(a, b, leq);
}

/// The sequence that a finite set is turned into holds no element twice.
proof fn lemma_to_seq_distinct(s: Set<i32>)
    requires
        s.finite(),
    ensures
        s.to_seq().no_duplicates(),
        s.to_seq().to_set() == s,
    decreases s.len(),
{
    broadcast use vstd::set::group_set_axioms;

    s.lemma_to_seq_to_set_id();
    if s.len() != 0 {
        let x = s.choose();
        let rest = s.remove(x).to_seq();
        lemma_to_seq_distinct(s.remove(x));
        assert(s.to_seq() =~= Seq::<i32>::empty().push(x) + rest);
        assert(!rest.to_set().contains(x));
        assert forall|i: int, j: int|
            0 <= i < s.to_seq().len() && 0 <= j < s.to_seq().len() && i != j implies s.to_seq()[i]
            != s.to_seq()[j] by {
            if i > 0 && j > 0 {
                assert(rest[i - 1] != rest[j - 1]);
            } else if i == 0 {
                assert(rest.contains(rest[j - 1]));
                assert(rest.to_set().contains(rest[j - 1]));
            } else {
                assert(rest.contains(rest[i - 1]));
                assert(rest.to_set().contains(rest[i - 1]));
            }
        }
    }
}

/// Every sequence of tokens has a ranking.
pub proof fn lemma_ranking_exists(ids: Seq<i32>)
    ensures
        is_ranking(ids, ranking(ids)),
{
    broadcast use {
        vstd::multiset::group_multiset_axioms,
        group_to_multiset_ensures,
        seq_to_set_is_finite,
    };

    let leq = |x: i32, y: i32| x == y || ranks_before(ids, x, y);
    let listed = ids.to_set().to_seq();
    let order = listed.sort_by(leq);
    lemma_rank_order_total(ids);
    lemma_to_seq_distinct(ids.to_set());
    listed.lemma_sort_by_ensures(leq);
    listed.lemma_multiset_has_no_duplicates();
    order.lemma_multiset_has_no_duplicates_conv();
    assert forall|t: i32| order.contains(t) <==> ids.contains(t) by {
        assert(order.contains(t) <==> order.to_multiset().count(t) > 0);
        assert(listed.contains(t) <==> listed.to_multiset().count(t) > 0);
        assert(listed.contains(t) <==> listed.to_set().contains(t));
        assert(ids.contains(t) <==> ids.to_set().contains(t));
    }
    assert forall|i: int, j: int| 0 <= i < j < order.len() implies ranks_before(
        ids,
        #[trigger] order[i],
        #[trigger] order[j],
    ) by {
        assert(leq(order[i], order[j]));
        assert(order[i] != order[j]);
    }
    assert(is_ranking(ids, order));
}

/// A ranking is a rank table if the tokens have no more distinct values
/// than there are ranks.
pub proof fn lemma_ranking_is_rank_table(ids: Seq<i32>, order: Seq<i32>)
    requires
        is_ranking(ids, order),
        ids.to_set().len() <= 0x8000_0000,
    ensures
        is_rank_table(order),
        order.len() == ids.to_set().len(),
{
    lemma_ranking_distinct(ids, order);
    order.unique_seq_to_set();
    assert(order.to_set() =~= ids.to_set());
}

/// The entries in ranking order give the ranking.
proof fn lemma_sorted_entries_rank(
    ids: Seq<i32>,
    distinct: Seq<i32>,
    entries: Seq<(i32, usize)>,
    ordered: Seq<(i32, usize)>,
    tokens: Seq<i32>,
)
    requires
        distinct.no_duplicates(),
        forall|t: i32| distinct.contains(t) <==> ids.contains(t),
        entries.len() == distinct.len(),
        forall|j: int|
            0 <= j < entries.len() ==> (#[trigger] entries[j]).0 == distinct[j] && entries[j].1
                == occurrences(ids, distinct[j]),
        sorted(ordered),
        ordered.to_multiset() == entries.to_multiset(),
        tokens.len() == ordered.len(),
        forall|j: int| 0 <= j < ordered.len() ==> #[trigger] tokens[j] == ordered[j].0,
    ensures
        is_ranking(ids, tokens),
{
    broadcast use {vstd::multiset::group_multiset_axioms, group_to_multiset_ensures};

    assert(entries.no_duplicates()) by {
        assert forall|i: int, j: int|
            0 <= i < entries.len() && 0 <= j < entries.len() && i != j implies entries[i]
            != entries[j] by {
            assert(distinct[i] != distinct[j]);
        }
    }
    entries.lemma_multiset_has_no_duplicates();
    ordered.lemma_multiset_has_no_duplicates_conv();
    assert forall|e: (i32, usize)| ordered.contains(e) <==> entries.contains(e) by {
        assert(ordered.contains(e) <==> ordered.to_multiset().count(e) > 0);
        assert(entries.contains(e) <==> entries.to_multiset().count(e) > 0);
    }
    assert forall|j: int| 0 <= j < ordered.len() implies (#[trigger] ordered[j]).1 == occurrences(
        ids,
        ordered[j].0,
    ) && ids.contains(ordered[j].0) by {
        assert(ordered.contains(ordered[j]));
        assert(entries.contains(ordered[j]));
        let k = choose|k: int| 0 <= k < entries.len() && entries[k] == ordered[j];
        assert(entries[k].0 == distinct[k]);
        assert(distinct.contains(distinct[k]));
    }
    assert forall|t: i32| tokens.contains(t) <==> ids.contains(t) by {
        if tokens.contains(t) {
            let j = choose|j: int| 0 <= j < tokens.len() && tokens[j] == t;
            assert(ordered[j].0 == t);
        }
        if ids.contains(t) {
            assert(distinct.contains(t));
            let k = choose|k: int| 0 <= k < distinct.len() && distinct[k] == t;
            assert(entries[k].0 == t);
            assert(entries.contains(entries[k]));
            assert(ordered.contains(entries[k]));
            let j = choose|j: int| 0 <= j < ordered.len() && ordered[j] == entries[k];
            assert(tokens[j] == t);
        }
    }
    assert forall|i: int, j: int| 0 <= i < j < tokens.len() implies ranks_before(
        ids,
        #[trigger] tokens[i],
        #[trigger] tokens[j],
    ) by {
        assert(entry_leq(ordered[i], ordered[j]));
        assert(ordered[i] != ordered[j]);
        assert(ordered[i].1 == occurrences(ids, ordered[i].0));
        assert(ordered[j].1 == occurrences(ids, ordered[j].0));
    }
}

/// The ranks of one payload's tokens, with lookup in both directions.
///
/// Its view is the rank table: the token of rank `r` at index `r`.
#[derive(Debug)]
pub struct FreqMap {
    /// From a token to its rank.
    token_to_mapped: HashMap<i32, i32>,
    /// From a rank, as index, to its token.
    mapped_to_token: Vec<i32>,
}

impl View for FreqMap {
    type V = Seq<i32>;

    closed spec fn view(&self) -> Seq<i32> {
        self.mapped_to_token@
    }
}

impl Clone for FreqMap {
    fn clone(&self) -> (copy: Self)
        ensures
            copy@ == self@,
    {
        proof {
            use_type_invariant(self);
        }
        let token_to_mapped = self.token_to_mapped.clone();
        let mapped_to_token = self.mapped_to_token.clone();
        assert(mapped_to_token@ =~= self.mapped_to_token@);
        FreqMap { token_to_mapped, mapped_to_token }
    }
}

impl FreqMap {
    /// The two lookups are inverse to each other, and every rank fits a
    /// signed 32-bit integer.
    #[verifier::type_invariant]
    spec fn inv(self) -> bool {
        &&& self.mapped_to_token@.len() <= 0x8000_0000
        &&& forall|t: i32| #[trigger]
            self.token_to_mapped@.contains_key(t) ==> {
                &&& 0 <= self.token_to_mapped@[t] < self.mapped_to_token@.len()
                &&& self.mapped_to_token@[self.token_to_mapped@[t] as int] == t
            }
        &&& forall|r: int|
            0 <= r < self.mapped_to_token@.len() ==> {
                &&& self.token_to_mapped@.contains_key(#[trigger] self.mapped_to_token@[r])
                &&& self.token_to_mapped@[self.mapped_to_token@[r]] == r
            }
    }

    /// Ranks the tokens of one payload: counts each distinct token, orders
    /// them by count, the larger first, and by token where counts are
    /// equal, the smaller first, and gives each its position as rank.
    ///
    /// Ranks are signed 32-bit integers, so `ids` may hold no more distinct
    /// tokens than there are such ranks.
    pub fn from_token_ids(ids: &[i32]) -> (map: FreqMap)
        requires
            ids@.to_set().len() <= 0x8000_0000,
        ensures
            is_ranking(ids@, map@),
            map@ == ranking(ids@),
            is_rank_table(map@),
    {
        broadcast use vstd::std_specs::hash::group_hash_axioms;

        // Count each token, and list the distinct tokens as they first come.
        let n = ids.len();
        let mut counts: HashMap<i32, usize> = HashMap::new();
        let mut distinct: Vec<i32> = Vec::new();
        for i in 0..n
            invariant
                n == ids@.len(),
                distinct@.no_duplicates(),
                forall|t: i32| counts@.contains_key(t) <==> ids@.take(i as int).contains(t),
                forall|t: i32| counts@.contains_key(t) <==> distinct@.contains(t),
                forall|t: i32| #[trigger]
                    counts@.contains_key(t) ==> counts@[t] == occurrences(ids@.take(i as int), t),
        {
            let token = ids[i];
            let seen = match counts.get(&token) {
                Some(count) => Some(*count),
                None => None,
            };
            proof {
                lemma_prefix_step(ids@, i as int);
                lemma_occurrences_bound(ids@.take(i as int), token);
                lemma_occurrences_contains(ids@.take(i as int), token);
            }
            let ghost before = distinct@;
            let ghost counted = counts@;
            match seen {
                Some(count) => {
                    counts.insert(token, count + 1);
                    assert forall|t: i32| counts@.contains_key(t) <==> distinct@.contains(t) by {
                        assert(counts@.contains_key(t) <==> counted.contains_key(t));
                    }
                },
                None => {
                    counts.insert(token, 1);
                    distinct.push(token);
                    assert(!before.contains(token));
                    assert forall|t: i32| counts@.contains_key(t) <==> distinct@.contains(t) by {
                        assert(counts@.contains_key(t) <==> counted.contains_key(t) || t == token);
                        assert(counted.contains_key(t) <==> before.contains(t));
                        if before.contains(t) {
                            let k = choose|k: int| 0 <= k < before.len() && before[k] == t;
                            assert(distinct@[k] == t);
                        }
                        if t == token {
                            assert(distinct@[before.len() as int] == t);
                        }
                        if distinct@.contains(t) {
                            let k = choose|k: int| 0 <= k < distinct@.len() && distinct@[k] == t;
                            if k < before.len() {
                                assert(before[k] == t);
                            }
                        }
                    }
                    assert forall|a: int, b: int|
                        0 <= a < distinct@.len() && 0 <= b < distinct@.len() && a
                            != b implies distinct@[a] != distinct@[b] by {
                        if a < before.len() {
                            assert(before.contains(before[a]));
                        }
                        if b < before.len() {
                            assert(before.contains(before[b]));
                        }
                    }
                },
            }
        }
        assert(ids@.take(n as int) =~= ids@);

        // Pair each distinct token with its count.
        let d = distinct.len();
        let mut entries: Vec<(i32, usize)> = Vec::with_capacity(d);
        for k in 0..d
            invariant
                d == distinct@.len(),
                entries@.len() == k,
                forall|t: i32| counts@.contains_key(t) <==> distinct@.contains(t),
                forall|t: i32| #[trigger]
                    counts@.contains_key(t) ==> counts@[t] == occurrences(ids@, t),
                forall|j: int|
                    0 <= j < k ==> (#[trigger] entries@[j]).0 == distinct@[j] && entries@[j].1
                        == occurrences(ids@, distinct@[j]),
        {
            let token = distinct[k];
            assert(distinct@.contains(token));
            let count = match counts.get(&token) {
                Some(count) => *count,
                None => unreached(),
            };
            entries.push((token, count));
        }

        // Order the pairs, and give each token its position as rank.
        let ordered = sort_entries(&entries);
        let m = ordered.len();
        let mut token_to_mapped: HashMap<i32, i32> = HashMap::with_capacity(m);
        let mut mapped_to_token: Vec<i32> = Vec::with_capacity(m);
        proof {
            broadcast use group_to_multiset_ensures;

            lemma_sorted_entries_rank(
                ids@,
                distinct@,
                entries@,
                ordered@,
                Seq::new(ordered@.len(), |j: int| ordered@[j].0),
            );
            lemma_ranking_is_rank_table(ids@, Seq::new(ordered@.len(), |j: int| ordered@[j].0));
        }
        for r in 0..m
            invariant
                m == ordered@.len(),
                is_rank_table(Seq::new(ordered@.len(), |j: int| ordered@[j].0)),
                mapped_to_token@ == Seq::new(r as nat, |j: int| ordered@[j].0),
                forall|t: i32| #[trigger]
                    token_to_mapped@.contains_key(t) ==> {
                        &&& 0 <= token_to_mapped@[t] < r
                        &&& ordered@[token_to_mapped@[t] as int].0 == t
                    },
                forall|j: int|
                    0 <= j < r ==> {
                        &&& token_to_mapped@.contains_key(#[trigger] ordered@[j].0)
                        &&& token_to_mapped@[ordered@[j].0] == j
                    },
        {
            let token = ordered[r].0;
            let ghost table = Seq::new(ordered@.len(), |j: int| ordered@[j].0);
            assert(forall|j: int| 0 <= j < r ==> table[j] != table[r as int]);
            assert(forall|j: int| 0 <= j < r ==> ordered@[j].0 == table[j]);
            let ghost mapped = token_to_mapped@;
            token_to_mapped.insert(token, r as i32);
            mapped_to_token.push(token);
            assert(mapped_to_token@ =~= Seq::new((r + 1) as nat, |j: int| ordered@[j].0));
            assert forall|j: int| 0 <= j < r + 1 implies token_to_mapped@.contains_key(
                #[trigger] ordered@[j].0,
            ) && token_to_mapped@[ordered@[j].0] == j by {
                if j < r {
                    assert(table[j] != table[r as int]);
                    assert(mapped.contains_key(ordered@[j].0));
                }
            }
        }
        proof {
            lemma_ranking_exists(ids@);
            lemma_ranking_unique(ids@, mapped_to_token@, ranking(ids@));
        }
        FreqMap { token_to_mapped, mapped_to_token }
    }

    /// The rank of a token, or `None` for a token that the payload did not
    /// hold.
    pub fn map_token(&self, token: i32) -> (rank: Option<i32>)
        ensures
            is_rank_table(self@),
            rank == rank_of(self@, token),
    {
        broadcast use vstd::std_specs::hash::group_hash_axioms;

        proof {
            use_type_invariant(self);
            self.lemma_distinct();
        }
        match self.token_to_mapped.get(&token) {
            Some(rank) => {
                proof {
                    lemma_rank_of_token_at_rank(self@, *rank);
                }
                Some(*rank)
            },
            None => {
                assert(!self@.contains(token)) by {
                    if self@.contains(token) {
                        let r = choose|r: int| 0 <= r < self@.len() && self@[r] == token;
                        assert(self.token_to_mapped@.contains_key(self.mapped_to_token@[r]));
                    }
                }
                None
            },
        }
    }

    /// The token of a rank, or `None` for a rank that is negative or not
    /// below the number of distinct tokens.
    pub fn unmap_token(&self, mapped: i32) -> (token: Option<i32>)
        ensures
            is_rank_table(self@),
            token == token_at_rank(self@, mapped),
    {
        proof {
            use_type_invariant(self);
            self.lemma_distinct();
        }
        if mapped < 0 {
            return None;
        }
        let index = mapped as usize;
        if index < self.mapped_to_token.len() {
            Some(self.mapped_to_token[index])
        } else {
            None
        }
    }

    /// The tokens in rank order: the token of rank `r` at index `r`.
    pub fn ordered_tokens(&self) -> (tokens: &[i32])
        ensures
            tokens@ == self@,
            is_rank_table(self@),
    {
        proof {
            use_type_invariant(self);
            self.lemma_distinct();
        }
        self.mapped_to_token.as_slice()
    }

    /// The invariant makes the view a rank table.
    proof fn lemma_distinct(&self)
        requires
            self.inv(),
        ensures
            is_rank_table(self@),
    {
        assert forall|i: int, j: int|
            0 <= i < self@.len() && 0 <= j < self@.len() && i != j implies self@[i] != self@[j] by {
            assert(self.token_to_mapped@[self.mapped_to_token@[i]] == i);
            assert(self.token_to_mapped@[self.mapped_to_token@[j]] == j);
        }
    }
}

} // verus!
