//! Grouping of positions by key, in order of first appearance.
use std::collections::HashMap;
use vstd::prelude::*;

verus! {

broadcast use vstd::std_specs::hash::group_hash_axioms;

/// The distinct keys that `keys` holds, in order of first appearance;
/// absent entries (`None`) take part in no group.
pub open spec fn key_order<K>(keys: Seq<Option<K>>) -> Seq<K>
    decreases keys.len(),
{
    if keys.len() == 0 {
        Seq::empty()
    } else {
        let earlier = key_order(keys.drop_last());
        match keys.last() {
            Some(k) => if earlier.contains(k) {
                earlier
            } else {
                earlier.push(k)
            },
            None => earlier,
        }
    }
}

/// The positions at which `keys` holds `k`, in increasing order.
pub open spec fn positions<K>(keys: Seq<Option<K>>, k: K) -> Seq<usize>
    decreases keys.len(),
{
    if keys.len() == 0 {
        Seq::empty()
    } else {
        let earlier = positions(keys.drop_last(), k);
        if keys.last() == Some(k) {
            earlier.push((keys.len() - 1) as usize)
        } else {
            earlier
        }
    }
}

/// Those of `ks` that `keys` holds at two or more positions, in the order of `ks`.
pub open spec fn repeated_among<K>(keys: Seq<Option<K>>, ks: Seq<K>) -> Seq<K>
    decreases ks.len(),
{
    if ks.len() == 0 {
        Seq::empty()
    } else {
        let earlier = repeated_among(keys, ks.drop_last());
        if positions(keys, ks.last()).len() >= 2 {
            earlier.push(ks.last())
        } else {
            earlier
        }
    }
}

/// The keys that `keys` holds at two or more positions, in order of first appearance.
pub open spec fn repeated_keys<K>(keys: Seq<Option<K>>) -> Seq<K> {
    repeated_among(keys, key_order(keys))
}

/// `order` and `members` are the grouping of the positions of `keys` by key.
pub open spec fn grouped<K>(keys: Seq<Option<K>>, order: Seq<K>, members: Seq<Vec<usize>>) -> bool {
    &&& order == key_order(keys)
    &&& members.len() == order.len()
    &&& forall|j: int| 0 <= j < order.len() ==> #[trigger] members[j]@ == positions(keys, order[j])
}

/// Every position listed for `k` is a position of `keys` that holds `k`.
pub proof fn lemma_positions_hold_key<K>(keys: Seq<Option<K>>, k: K)
    requires
        keys.len() <= usize::MAX,
    ensures
        forall|t: int|
            0 <= t < positions(keys, k).len() ==> {
                &&& 0 <= #[trigger] positions(keys, k)[t] < keys.len()
                &&& keys[positions(keys, k)[t] as int] == Some(k)
            },
    decreases keys.len(),
{
    if keys.len() > 0 {
        lemma_positions_hold_key(keys.drop_last(), k);
    }
}

/// Every key kept as repeated is held at two or more positions.
pub proof fn lemma_repeated_have_two<K>(keys: Seq<Option<K>>, ks: Seq<K>)
    ensures
        forall|j: int|
            0 <= j < repeated_among(keys, ks).len() ==> positions(
                keys,
                #[trigger] repeated_among(keys, ks)[j],
            ).len() >= 2,
    decreases ks.len(),
{
    if ks.len() > 0 {
        let earlier = repeated_among(keys, ks.drop_last());
        lemma_repeated_have_two(keys, ks.drop_last());
        assert(forall|j: int|
            0 <= j < earlier.len() ==> repeated_among(keys, ks)[j] == #[trigger] earlier[j]);
    }
}

/// Groups the positions of `keys` by key, in order of first appearance.
pub fn group_by_u64(keys: &Vec<Option<u64>>) -> (r: (Vec<u64>, Vec<Vec<usize>>))
    ensures
        grouped(keys@, r.0@, r.1@),
{
    let mut order: Vec<u64> = Vec::new();
    let mut members: Vec<Vec<usize>> = Vec::new();
    let mut slot: HashMap<u64, usize> = HashMap::new();
    let mut i: usize = 0;
    while i < keys.len()
        invariant
            i <= keys.len(),
            grouped(keys@.take(i as int), order@, members@),
            order@.no_duplicates(),
            forall|k: u64| #[trigger] slot@.contains_key(k) <==> order@.contains(k),
            forall|k: u64|
                #[trigger] slot@.contains_key(k) ==> slot@[k] < order.len() && order@[slot@[k] as int]
                    == k,
        decreases keys.len() - i,
    {
        let ghost before = keys@.take(i as int);
        let ghost after = keys@.take(i + 1);
        assert(after.drop_last() == before);
        assert(after.last() == keys@[i as int]);
        match keys[i] {
            Some(k) => {
                match slot.get(&k) {
                    Some(j) => {
                        let j: usize = *j;
                        let ghost old_members = members@;
                        assert(old_members[j as int]@ == positions(before, k));
                        members[j].push(i);
                        assert forall|x: int| 0 <= x < order.len() implies #[trigger] members@[x]@
                            == positions(after, order@[x]) by {
                            assert(old_members[x]@ == positions(before, order@[x]));
                            if x == j {
                                assert(order@[x] == k);
                                assert(positions(after, k) == positions(before, k).push(i));
                                assert(members@[x]@ == old_members[x]@.push(i));
                            } else {
                                assert(members@[x] == old_members[x]);
                            }
                        }
                    },
                    None => {
                        let n: usize = order.len();
                        let ghost old_order = order@;
                        let ghost old_members = members@;
                        slot.insert(k, n);
                        order.push(k);
                        members.push(vec![i]);
                        assert forall|x: int| 0 <= x < order.len() implies #[trigger] members@[x]@
                            == positions(after, order@[x]) by {
                            if x < n {
                                assert(old_members[x]@ == positions(before, old_order[x]));
                                assert(positions(after, order@[x]) == positions(before, order@[x]));
                            } else {
                                lemma_positions_absent(before, k);
                                assert(positions(after, k) == positions(before, k).push(i));
                                assert(members@[x]@ == seq![i]);
                            }
                        }
                        assert forall|q: u64| #[trigger] slot@.contains_key(q) <==> order@.contains(q) by {
                            if q != k && order@.contains(q) {
                                let w = choose|w: int| 0 <= w < order.len() && order@[w] == q;
                                assert(old_order[w] == q);
                            }
                            if q != k && old_order.contains(q) {
                                let w = choose|w: int| 0 <= w < old_order.len() && old_order[w] == q;
                                assert(order@[w] == q);
                            }
                            if q == k {
                                assert(order@[n as int] == k);
                            }
                        }
                    },
                }
            },
            None => {
                assert forall|x: int| 0 <= x < order.len() implies #[trigger] members@[x]@
                    == positions(after, order@[x]) by {
                    assert(positions(after, order@[x]) == positions(before, order@[x]));
                }
            },
        }
        i += 1;
    }
    assert(keys@.take(keys.len() as int) == keys@);
    (order, members)
}

/// The keys of a list of contents: each present content by its bytes.
pub open spec fn content_keys(contents: Seq<Option<Vec<u8>>>) -> Seq<Option<Seq<u8>>> {
    contents.map_values(
        |c: Option<Vec<u8>>|
            match c {
                Some(v) => Some(v@),
                None => None,
            },
    )
}

/// Whether two byte strings are equal.
pub fn bytes_equal(a: &Vec<u8>, b: &Vec<u8>) -> (r: bool)
    ensures
        r == (a@ == b@),
{
    if a.len() != b.len() {
        return false;
    }
    let mut i: usize = 0;
    while i < a.len()
        invariant
            i <= a.len(),
            a.len() == b.len(),
            forall|t: int| 0 <= t < i ==> a@[t] == b@[t],
        decreases a.len() - i,
    {
        if a[i] != b[i] {
            return false;
        }
        i += 1;
    }
    assert(a@ == b@);
    true
}

/// Groups the positions of `contents` by their bytes, in order of first
/// appearance; absent contents take part in no group.
pub fn group_by_content(contents: &Vec<Option<Vec<u8>>>) -> (members: Vec<Vec<usize>>)
    ensures
        grouped(content_keys(contents@), key_order(content_keys(contents@)), members@),
{
    let ghost keys = content_keys(contents@);
    let mut reps: Vec<usize> = Vec::new();
    let mut members: Vec<Vec<usize>> = Vec::new();
    let ghost mut order: Seq<Seq<u8>> = Seq::empty();
    let mut i: usize = 0;
    while i < contents.len()
        invariant
            i <= contents.len(),
            keys == content_keys(contents@),
            grouped(keys.take(i as int), order, members@),
            order.no_duplicates(),
            reps.len() == order.len(),
            forall|j: int|
                0 <= j < reps.len() ==> {
                    &&& #[trigger] reps@[j] < contents.len()
                    &&& contents@[reps@[j] as int] is Some
                    &&& contents@[reps@[j] as int]->Some_0@ == order[j]
                },
        decreases contents.len() - i,
    {
        let ghost before = keys.take(i as int);
        let ghost after = keys.take(i + 1);
        assert(after.drop_last() == before);
        assert(after.last() == keys[i as int]);
        match &contents[i] {
            Some(c) => {
                let ghost k = c@;
                let mut j: usize = 0;
                while j < reps.len()
                    invariant
                        j <= reps.len(),
                        reps.len() == order.len(),
                        forall|j: int|
                            0 <= j < reps.len() ==> {
                                &&& #[trigger] reps@[j] < contents.len()
                                &&& contents@[reps@[j] as int] is Some
                                &&& contents@[reps@[j] as int]->Some_0@ == order[j]
                            },
                        forall|x: int| 0 <= x < j ==> order[x] != k,
                        c@ == k,
                    ensures
                        j <= reps.len(),
                        forall|x: int| 0 <= x < j ==> order[x] != k,
                        j < reps.len() ==> order[j as int] == k,
                    decreases reps.len() - j,
                {
                    let r: usize = reps[j];
                    let same = match &contents[r] {
                        Some(d) => bytes_equal(d, c),
                        None => false,
                    };
                    if same {
                        assert(contents@[r as int]->Some_0@ == order[j as int]);
                        break;
                    }
                    j += 1;
                }
                let found = j < reps.len();
                if found {
                    let ghost old_members = members@;
                    assert(order.no_duplicates());
                    members[j].push(i);
                    assert forall|x: int| 0 <= x < order.len() implies #[trigger] members@[x]@
                        == positions(after, order[x]) by {
                        assert(old_members[x]@ == positions(before, order[x]));
                        if x == j {
                            assert(positions(after, k) == positions(before, k).push(i));
                            assert(members@[x]@ == old_members[x]@.push(i));
                        } else {
                            assert(members@[x] == old_members[x]);
                        }
                    }
                } else {
                    let ghost old_order = order;
                    let ghost old_members = members@;
                    assert(forall|x: int| 0 <= x < old_order.len() ==> old_order[x] != k);
                    assert(!old_order.contains(k));
                    reps.push(i);
                    members.push(vec![i]);
                    proof {
                        order = order.push(k);
                    }
                    assert forall|x: int| 0 <= x < order.len() implies #[trigger] members@[x]@
                        == positions(after, order[x]) by {
                        if x < old_order.len() {
                            assert(old_members[x]@ == positions(before, old_order[x]));
                            assert(positions(after, order[x]) == positions(before, order[x]));
                        } else {
                            lemma_positions_absent(before, k);
                            assert(positions(after, k) == positions(before, k).push(i));
                            assert(members@[x]@ == seq![i]);
                        }
                    }
                }
            },
            None => {
                assert forall|x: int| 0 <= x < order.len() implies #[trigger] members@[x]@
                    == positions(after, order[x]) by {
                    assert(positions(after, order[x]) == positions(before, order[x]));
                }
            },
        }
        i += 1;
    }
    assert(keys.take(contents.len() as int) == keys);
    members
}

/// The groups of `members` with two or more positions, as indices into
/// `order`, in order.
pub fn select_repeated<K>(
    Ghost(keys): Ghost<Seq<Option<K>>>,
    Ghost(order): Ghost<Seq<K>>,
    members: &Vec<Vec<usize>>,
) -> (sel: Vec<usize>)
    requires
        order == key_order(keys),
        members@.len() == order.len(),
        forall|j: int| 0 <= j < order.len() ==> #[trigger] members@[j]@ == positions(keys, order[j]),
    ensures
        sel.len() == repeated_keys(keys).len(),
        forall|t: int|
            0 <= t < sel.len() ==> #[trigger] sel@[t] < order.len() && order[sel@[t] as int]
                == repeated_keys(keys)[t],
{
    let mut sel: Vec<usize> = Vec::new();
    let mut j: usize = 0;
    while j < members.len()
        invariant
            j <= members.len(),
            members@.len() == order.len(),
            forall|j: int| 0 <= j < order.len() ==> #[trigger] members@[j]@ == positions(keys, order[j]),
            sel.len() == repeated_among(keys, order.take(j as int)).len(),
            forall|t: int|
                0 <= t < sel.len() ==> #[trigger] sel@[t] < j && order[sel@[t] as int]
                    == repeated_among(keys, order.take(j as int))[t],
        decreases members.len() - j,
    {
        assert(order.take(j + 1).drop_last() == order.take(j as int));
        assert(members@[j as int]@ == positions(keys, order[j as int]));
        if members[j].len() >= 2 {
            sel.push(j);
        }
        j += 1;
    }
    assert(order.take(members.len() as int) == order);
    sel
}

/// A key absent from the order of `keys` is held nowhere in `keys`.
proof fn lemma_positions_absent<K>(keys: Seq<Option<K>>, k: K)
    requires
        !key_order(keys).contains(k),
    ensures
        positions(keys, k).len() == 0,
    decreases keys.len(),
{
    if keys.len() > 0 {
        let earlier = key_order(keys.drop_last());
        let all = key_order(keys);
        assert(all.len() >= earlier.len());
        assert(forall|w: int| 0 <= w < earlier.len() ==> all[w] == #[trigger] earlier[w]);
        if earlier.contains(k) {
            let w = choose|w: int| 0 <= w < earlier.len() && earlier[w] == k;
            assert(all[w] == k);
        }
        if keys.last() == Some(k) {
            assert(all[earlier.len() as int] == k);
        }
        lemma_positions_absent(keys.drop_last(), k);
    }
}

} // verus!
