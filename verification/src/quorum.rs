//! The commit rule: the highest log index that a quorum of the cluster holds.
use vstd::prelude::*;

use std::collections::HashMap;
use vstd::std_specs::iter::IteratorSpec;

use crate::types::NodeId;

verus! {

broadcast use vstd::std_specs::hash::group_hash_axioms;

/// Number of peers whose recorded match index is at least `c`, plus one if `last` is.
pub open spec fn count_at_least(m: Map<u64, u64>, last: u64, c: u64) -> nat {
    m.dom().filter(|k: u64| m[k] >= c).len() + if last >= c {
        1nat
    } else {
        0nat
    }
}

/// Whether `c` is one of the recorded match indices or the leader's own last index.
pub open spec fn is_candidate_index(m: Map<u64, u64>, last: u64, c: u64) -> bool {
    c == last || exists|k: u64| m.contains_key(k) && m[k] == c
}

/// `c` is the highest index that a quorum of `q` (peers' match indices plus the
/// leader's own last index) has reached.
pub open spec fn is_quorum_index(m: Map<u64, u64>, last: u64, q: nat, c: u64) -> bool {
    &&& is_candidate_index(m, last, c)
    &&& count_at_least(m, last, c) >= q
    &&& forall|v: u64|
        is_candidate_index(m, last, v) && #[trigger] count_at_least(m, last, v) >= q ==> v <= c
}

/// The highest index replicated on a quorum.
pub open spec fn quorum_index(m: Map<u64, u64>, last: u64, q: nat) -> u64 {
    choose|c: u64| is_quorum_index(m, last, q, c)
}


/// Number of elements of `s` that are at least `c`.
pub open spec fn seq_count_at_least(s: Seq<u64>, c: u64) -> nat
    decreases s.len(),
{
    if s.len() == 0 {
        0
    } else {
        seq_count_at_least(s.drop_last(), c) + if s.last() >= c {
            1nat
        } else {
            0nat
        }
    }
}

/// A quorum index, where one exists, is unique.
pub proof fn lemma_quorum_index_unique(m: Map<u64, u64>, last: u64, q: nat, c: u64)
    requires
        is_quorum_index(m, last, q, c),
    ensures
        quorum_index(m, last, q) == c,
{
    let d = quorum_index(m, last, q);
    assert(is_quorum_index(m, last, q, d));
    assert(count_at_least(m, last, c) >= q);
    assert(count_at_least(m, last, d) >= q);
}

proof fn lemma_count_push(s: Seq<u64>, x: u64, c: u64)
    ensures
        seq_count_at_least(s.push(x), c) == seq_count_at_least(s, c) + if x >= c {
            1nat
        } else {
            0nat
        },
{
    assert(s.push(x).drop_last() =~= s);
}

/// When every element is at least `c`, all of them are counted.
proof fn lemma_count_all(s: Seq<u64>, c: u64)
    requires
        forall|i: int| 0 <= i < s.len() ==> s[i] >= c,
    ensures
        seq_count_at_least(s, c) == s.len(),
    decreases s.len(),
{
    if s.len() > 0 {
        lemma_count_all(s.drop_last(), c);
    }
}

/// A nonempty sequence has a least element.
proof fn lemma_least(s: Seq<u64>) -> (j: int)
    requires
        s.len() > 0,
    ensures
        0 <= j < s.len(),
        forall|i: int| 0 <= i < s.len() ==> s[i] >= s[j],
    decreases s.len(),
{
    if s.len() == 1 {
        0
    } else {
        let k = lemma_least(s.drop_last());
        assert forall|i: int| 0 <= i < s.len() - 1 implies s[i] == s.drop_last()[i] by {}
        if s.last() < s[k] {
            s.len() - 1
        } else {
            k
        }
    }
}

/// Counting over a duplicate-free sequence of keys counts the keys of the set it lists.
proof fn lemma_count_keys(keys: Seq<u64>, m: Map<u64, u64>, c: u64)
    requires
        keys.no_duplicates(),
        forall|i: int| 0 <= i < keys.len() ==> m.contains_key(#[trigger] keys[i]),
    ensures
        seq_count_at_least(keys.map_values(|k: u64| m[k]), c) == keys.to_set().filter(
            |k: u64| m[k] >= c,
        ).len(),
    decreases keys.len(),
{
    let p = |k: u64| m[k] >= c;
    if keys.len() == 0 {
        assert(keys.to_set().filter(p) =~= Set::<u64>::empty());
        assert(keys.map_values(|k: u64| m[k]) =~= Seq::<u64>::empty());
    } else {
        let ks = keys.drop_last();
        let k = keys.last();
        assert(ks.no_duplicates());
        lemma_count_keys(ks, m, c);
        assert(keys =~= ks.push(k));
        assert(keys.map_values(|k: u64| m[k]) =~= ks.map_values(|k: u64| m[k]).push(m[k]));
        lemma_count_push(ks.map_values(|k: u64| m[k]), m[k], c);
        assert(!ks.to_set().contains(k)) by {
            if ks.to_set().contains(k) {
                let j = choose|j: int| 0 <= j < ks.len() && ks[j] == k;
                assert(keys[j] == keys[keys.len() - 1]);
            }
        }
        assert(keys.to_set() =~= ks.to_set().insert(k));
        vstd::seq_lib::seq_to_set_is_finite(ks);
        if p(k) {
            assert(keys.to_set().filter(p) =~= ks.to_set().filter(p).insert(k));
        } else {
            assert(keys.to_set().filter(p) =~= ks.to_set().filter(p));
        }
    }
}


/// The match index of each listed key, followed by the leader's own last index.
pub open spec fn listed_values(m: Map<u64, u64>, last: u64, keys: Seq<u64>) -> Seq<u64> {
    keys.map_values(|k: u64| m[k]).push(last)
}

/// Listing a finite set gives each element once.
proof fn lemma_to_seq_no_duplicates(s: Set<u64>)
    requires
        s.finite(),
    ensures
        s.to_seq().no_duplicates(),
        s.to_seq().to_set() == s,
        s.to_seq().len() == s.len(),
    decreases s.len(),
{
    s.lemma_to_seq_to_set_id();
    if s.len() > 0 {
        let x = s.choose();
        let rest = s.remove(x);
        lemma_to_seq_no_duplicates(rest);
        let sq = s.to_seq();
        assert(sq =~= seq![x] + rest.to_seq());
        assert forall|i: int, j: int| 0 <= i < sq.len() && 0 <= j < sq.len() && i != j implies sq[i]
            != sq[j] by {
            if i == 0 && j > 0 {
                assert(rest.to_seq().contains(sq[j]));
                assert(rest.to_seq().to_set().contains(sq[j]));
            } else if j == 0 && i > 0 {
                assert(rest.to_seq().contains(sq[i]));
                assert(rest.to_seq().to_set().contains(sq[i]));
            } else if i > 0 && j > 0 {
                assert(sq[i] == rest.to_seq()[i - 1]);
                assert(sq[j] == rest.to_seq()[j - 1]);
            }
        }
    }
}

/// The values listed for `keys` (each once, exactly the map's keys) followed by `last`
/// count, for every threshold, as `count_at_least` does.
proof fn lemma_values_count(m: Map<u64, u64>, last: u64, keys: Seq<u64>)
    requires
        keys.no_duplicates(),
        keys.to_set() == m.dom(),
    ensures
        forall|c: u64|
            #[trigger] seq_count_at_least(listed_values(m, last, keys), c)
                == count_at_least(m, last, c),
{
    assert forall|c: u64|
        #[trigger] seq_count_at_least(listed_values(m, last, keys), c)
            == count_at_least(m, last, c) by {
        assert forall|j: int| 0 <= j < keys.len() implies m.contains_key(#[trigger] keys[j]) by {
            assert(keys.to_set().contains(keys[j]));
        }
        lemma_count_keys(keys, m, c);
        lemma_count_push(keys.map_values(|k: u64| m[k]), last, c);
    }
}

/// The greatest listed value that a quorum has reached is the quorum index.
proof fn lemma_values_quorum(m: Map<u64, u64>, last: u64, keys: Seq<u64>, q: nat, j: int)
    requires
        keys.no_duplicates(),
        keys.to_set() == m.dom(),
        0 <= j <= keys.len(),
        seq_count_at_least(listed_values(m, last, keys), listed_values(m, last, keys)[j]) >= q,
        forall|t: int|
            0 <= t <= keys.len() && seq_count_at_least(
                listed_values(m, last, keys),
                #[trigger] listed_values(m, last, keys)[t],
            ) >= q ==> listed_values(m, last, keys)[t] <= listed_values(m, last, keys)[j],
    ensures
        is_quorum_index(m, last, q, listed_values(m, last, keys)[j]),
{
    let vals = listed_values(m, last, keys);
    let best = vals[j];
    lemma_values_count(m, last, keys);
    if j < keys.len() {
        assert(keys.to_set().contains(keys[j]));
        assert(m.contains_key(keys[j]) && m[keys[j]] == best);
    }
    assert(is_candidate_index(m, last, best));
    assert(seq_count_at_least(vals, best) == count_at_least(m, last, best));
    assert forall|v: u64|
        is_candidate_index(m, last, v) && #[trigger] count_at_least(m, last, v) >= q implies v
        <= best by {
        assert(seq_count_at_least(vals, v) == count_at_least(m, last, v));
        if v == last {
            assert(vals[keys.len() as int] == v);
        } else {
            let k = choose|k: u64| m.contains_key(k) && m[k] == v;
            assert(keys.to_set().contains(k));
            let s = choose|s: int| 0 <= s < keys.len() && keys[s] == k;
            assert(vals[s] == v);
        }
    }
}

/// Among the first `k` values, the position of the greatest one that a quorum has reached.
proof fn lemma_best_position(vals: Seq<u64>, q: nat, k: int) -> (j: Option<int>)
    requires
        0 <= k <= vals.len(),
    ensures
        match j {
            Some(j) => 0 <= j < k && seq_count_at_least(vals, vals[j]) >= q && forall|t: int|
                0 <= t < k && seq_count_at_least(vals, #[trigger] vals[t]) >= q ==> vals[t] <= vals[j],
            None => forall|t: int| 0 <= t < k ==> seq_count_at_least(vals, #[trigger] vals[t]) < q,
        },
    decreases k,
{
    if k == 0 {
        None
    } else {
        let prev = lemma_best_position(vals, q, k - 1);
        let here = seq_count_at_least(vals, vals[k - 1]) >= q;
        match prev {
            Some(p) => if here && vals[k - 1] > vals[p] {
                Some(k - 1)
            } else {
                Some(p)
            },
            None => if here {
                Some(k - 1)
            } else {
                None
            },
        }
    }
}

/// Whenever the quorum is no larger than the number of values, a quorum index exists.
pub proof fn lemma_quorum_index_exists(m: Map<u64, u64>, last: u64, q: nat)
    requires
        m.dom().finite(),
        1 <= q <= m.dom().len() + 1,
    ensures
        is_quorum_index(m, last, q, quorum_index(m, last, q)),
{
    let keys = m.dom().to_seq();
    lemma_to_seq_no_duplicates(m.dom());
    let vals = listed_values(m, last, keys);
    let least = lemma_least(vals);
    lemma_count_all(vals, vals[least]);
    let best = lemma_best_position(vals, q, vals.len() as int);
    assert(seq_count_at_least(vals, vals[least]) >= q);
    let j = best->Some_0;
    lemma_values_quorum(m, last, keys, q, j);
}

/// Number of elements of `s` that are at least `c`.
fn count_at_least_in(s: &Vec<u64>, c: u64) -> (n: usize)
    ensures
        n == seq_count_at_least(s@, c),
{
    let len = s.len();
    let mut n: usize = 0;
    let mut i: usize = 0;
    while i < len
        invariant
            0 <= i <= len,
            len == s@.len(),
            n == seq_count_at_least(s@.take(i as int), c),
            n <= i,
        decreases len - i,
    {
        proof {
            assert(s@.take(i + 1) =~= s@.take(i as int).push(s@[i as int]));
            lemma_count_push(s@.take(i as int), s@[i as int], c);
        }
        if s[i] >= c {
            n = n + 1;
        }
        i = i + 1;
    }
    proof {
        assert(s@.take(len as int) =~= s@);
    }
    n
}

/// The keys of a hash map, each once.
fn collect_keys(m: &HashMap<NodeId, u64>) -> (keys: Vec<NodeId>)
    ensures
        keys@.no_duplicates(),
        keys@.to_set() == m@.dom(),
        keys@.len() == m@.dom().len(),
{
    let ghost all = vstd::std_specs::hash::spec_keys_iter(m).remaining().unref();
    let mut keys: Vec<NodeId> = Vec::new();
    for k in it: m.keys()
        invariant
            it.seq().unref() == all,
            keys@.len() == it.index(),
            keys@ == all.take(keys@.len() as int),
    {
        keys.push(*k);
        proof {
            assert(keys@ =~= all.take(keys@.len() as int));
        }
    }
    proof {
        assert(keys@ =~= all);
    }
    keys
}

/// The highest log index that at least `quorum` of the recorded match indices,
/// together with the leader's own last index, have reached. This is the
/// `quorum`-th largest of those values.
pub fn quorum_commit_index(match_index: &HashMap<NodeId, u64>, last_index: u64, quorum: usize) -> (c: u64)
    requires
        1 <= quorum <= match_index@.dom().len() + 1,
    ensures
        is_quorum_index(match_index@, last_index, quorum as nat, c),
        c == quorum_index(match_index@, last_index, quorum as nat),
{
    let ghost m = match_index@;
    let keys = collect_keys(match_index);
    let mut values: Vec<u64> = Vec::new();
    let nk = keys.len();
    let mut i: usize = 0;
    while i < nk
        invariant
            0 <= i <= nk,
            nk == keys@.len(),
            m == match_index@,
            keys@.to_set() == m.dom(),
            values@ == keys@.take(i as int).map_values(|k: u64| m[k]),
        decreases nk - i,
    {
        let k = keys[i];
        assert(keys@.to_set().contains(k));
        let v = match match_index.get(&k) {
            Some(v) => *v,
            None => 0,
        };
        values.push(v);
        proof {
            assert(keys@.take(i + 1) =~= keys@.take(i as int).push(k));
            assert(values@ =~= keys@.take(i + 1).map_values(|k: u64| m[k]));
        }
        i = i + 1;
    }
    proof {
        assert(keys@.take(nk as int) =~= keys@);
    }
    values.push(last_index);
    let ghost vals = values@;
    let n = values.len();
    let mut found = false;
    let mut best: u64 = 0;
    let mut j: usize = 0;
    while j < n
        invariant
            0 <= j <= n,
            n == vals.len(),
            values@ == vals,
            found ==> vals.contains(best) && seq_count_at_least(vals, best) >= quorum,
            forall|t: int|
                0 <= t < j && seq_count_at_least(vals, #[trigger] vals[t]) >= quorum ==> found
                    && vals[t] <= best,
        decreases n - j,
    {
        let v = values[j];
        let cnt = count_at_least_in(&values, v);
        if cnt >= quorum && (!found || v > best) {
            best = v;
            found = true;
        }
        j = j + 1;
    }
    proof {
        let least = lemma_least(vals);
        lemma_count_all(vals, vals[least]);
        assert(seq_count_at_least(vals, vals[least]) >= quorum);
        assert(found);
        let t = choose|t: int| 0 <= t < vals.len() && vals[t] == best;
        assert(vals =~= listed_values(m, last_index, keys@));
        lemma_values_quorum(m, last_index, keys@, quorum as nat, t);
        lemma_quorum_index_unique(m, last_index, quorum as nat, best);
    }
    best
}

} // verus!
