//! Ordering requested parts by hardware channel.
use vstd::prelude::*;
use crate::channel_table::{lookup_channel, ChannelTable};

verus! {

/// The sort key of a part name: its channel, or -1 where the table has none.
pub open spec fn channel_key(table: Seq<(Seq<char>, i32)>, name: Seq<char>) -> int {
    match lookup_channel(table, name) {
        Some(c) => c as int,
        None => -1,
    }
}

/// `order` lists indices into `keys`, each once, by ascending key, and indices
/// of equal keys ascending: the order of a stable sort.
pub open spec fn is_stable_order(keys: Seq<int>, order: Seq<usize>) -> bool {
    &&& order.len() == keys.len()
    &&& forall|k: int| 0 <= k < order.len() ==> (#[trigger] order[k]) < keys.len()
    &&& forall|k1: int, k2: int|
        0 <= k1 < k2 < order.len() ==> {
            let a = #[trigger] order[k1];
            let b = #[trigger] order[k2];
            &&& a != b
            &&& keys[a as int] <= keys[b as int]
            &&& keys[a as int] == keys[b as int] ==> a < b
        }
}

/// Where a stable insertion puts `x` into `o`: before the first entry of
/// larger key.
pub open spec fn insert_at(keys: Seq<int>, o: Seq<usize>, x: usize) -> int
    decreases o.len(),
{
    if o.len() == 0 {
        0
    } else if keys[o[0] as int] > keys[x as int] {
        0
    } else {
        1 + insert_at(keys, o.drop_first(), x)
    }
}

/// The first `i` indices, stably sorted by key.
pub open spec fn sort_prefix(keys: Seq<int>, i: nat) -> Seq<usize>
    decreases i,
{
    if i == 0 {
        Seq::empty()
    } else {
        let o = sort_prefix(keys, (i - 1) as nat);
        o.insert(insert_at(keys, o, (i - 1) as usize), (i - 1) as usize)
    }
}

/// All indices of `keys`, stably sorted by key.
pub open spec fn stable_sorted(keys: Seq<int>) -> Seq<usize> {
    sort_prefix(keys, keys.len())
}

proof fn lemma_insert_at(keys: Seq<int>, o: Seq<usize>, x: usize, pos: int)
    requires
        0 <= pos <= o.len(),
        forall|k: int| 0 <= k < pos ==> keys[(#[trigger] o[k]) as int] <= keys[x as int],
        pos < o.len() ==> keys[o[pos] as int] > keys[x as int],
    ensures
        insert_at(keys, o, x) == pos,
    decreases o.len(),
{
    if o.len() > 0 && pos > 0 {
        assert(keys[o[0] as int] <= keys[x as int]);
        let r = o.drop_first();
        assert forall|k: int| 0 <= k < pos - 1 implies keys[(#[trigger] r[k]) as int] <= keys[x as int] by {
            assert(r[k] == o[k + 1]);
        }
        if pos - 1 < r.len() {
            assert(r[pos - 1] == o[pos]);
        }
        lemma_insert_at(keys, r, x, pos - 1);
    }
}

pub open spec fn name_keys(table: Seq<(Seq<char>, i32)>, names: Seq<String>) -> Seq<int> {
    Seq::new(names.len(), |i: int| channel_key(table, names[i]@))
}

/// The indices of `names` in hardware channel order; names without a channel
/// come first. Parts of equal key keep their request order.
pub fn channel_order(table: &ChannelTable, names: &Vec<String>) -> (r: Vec<usize>)
    ensures
        is_stable_order(name_keys(table@, names@), r@),
        r@ == stable_sorted(name_keys(table@, names@)),
{
    let n = names.len();
    let ghost keys = name_keys(table@, names@);
    let mut ks: Vec<i64> = Vec::new();
    let mut j: usize = 0;
    while j < n
        invariant
            j <= n,
            n == names@.len(),
            keys == name_keys(table@, names@),
            ks@.len() == j,
            forall|t: int| 0 <= t < j ==> (#[trigger] ks@[t]) as int == keys[t],
        decreases n - j,
    {
        let k: i64 = match table.get_part_id(&names[j]) {
            Some(c) => c as i64,
            None => -1,
        };
        ks.push(k);
        j = j + 1;
    }
    let mut out: Vec<usize> = Vec::new();
    let mut i: usize = 0;
    while i < n
        invariant
            i <= n,
            n == keys.len(),
            ks@.len() == n,
            forall|t: int| 0 <= t < n ==> (#[trigger] ks@[t]) as int == keys[t],
            out@.len() == i,
            out@ == sort_prefix(keys, i as nat),
            forall|k: int| 0 <= k < out@.len() ==> (#[trigger] out@[k]) < i,
            forall|k1: int, k2: int|
                0 <= k1 < k2 < out@.len() ==> {
                    let a = #[trigger] out@[k1];
                    let b = #[trigger] out@[k2];
                    &&& a != b
                    &&& keys[a as int] <= keys[b as int]
                    &&& keys[a as int] == keys[b as int] ==> a < b
                },
        decreases n - i,
    {
        let ki = ks[i];
        let mut pos: usize = 0;
        while pos < out.len() && ks[out[pos]] <= ki
            invariant
                pos <= out@.len(),
                forall|k: int| 0 <= k < out@.len() ==> (#[trigger] out@[k]) < i,
                ks@.len() == n,
                i < n,
                forall|k: int| 0 <= k < pos ==> ks@[(#[trigger] out@[k]) as int] <= ki,
            decreases out@.len() - pos,
        {
            pos = pos + 1;
        }
        proof {
            if pos < out@.len() {
                assert forall|k: int| pos <= k < out@.len() implies ks@[(#[trigger] out@[k]) as int] > ki by {
                    if k > pos {
                        let a = out@[pos as int];
                        let b = out@[k];
                        assert(keys[a as int] <= keys[b as int]);
                    }
                }
            }
            out@.insert_ensures(pos as int, i);
            lemma_insert_at(keys, out@, i, pos as int);
        }
        let ghost old_out = out@;
        out.insert(pos, i);
        proof {
            assert forall|k1: int, k2: int| 0 <= k1 < k2 < out@.len() implies {
                let a = #[trigger] out@[k1];
                let b = #[trigger] out@[k2];
                &&& a != b
                &&& keys[a as int] <= keys[b as int]
                &&& keys[a as int] == keys[b as int] ==> a < b
            } by {
                if k1 < pos && k2 < pos {
                    assert(out@[k1] == old_out[k1] && out@[k2] == old_out[k2]);
                } else if k1 < pos && k2 == pos {
                    assert(out@[k1] == old_out[k1]);
                } else if k1 < pos {
                    assert(out@[k1] == old_out[k1] && out@[k2] == old_out[k2 - 1]);
                } else if k1 == pos {
                    assert(out@[k2] == old_out[k2 - 1]);
                } else {
                    assert(out@[k1] == old_out[k1 - 1] && out@[k2] == old_out[k2 - 1]);
                }
            }
            assert forall|k: int| 0 <= k < out@.len() implies (#[trigger] out@[k]) < i + 1 by {
                if k < pos {
                    assert(out@[k] == old_out[k]);
                } else if k > pos {
                    assert(out@[k] == old_out[k - 1]);
                }
            }
        }
        i = i + 1;
    }
    out
}

pub proof fn lemma_sort_prefix(keys: Seq<int>, i: nat)
    requires
        i <= keys.len(),
    ensures
        sort_prefix(keys, i).len() == i,
        forall|k: int| 0 <= k < i ==> (#[trigger] sort_prefix(keys, i)[k]) < i,
    decreases i,
{
    if i > 0 {
        let o = sort_prefix(keys, (i - 1) as nat);
        lemma_sort_prefix(keys, (i - 1) as nat);
        let pos = insert_at(keys, o, (i - 1) as usize);
        lemma_insert_at_range(keys, o, (i - 1) as usize);
        o.insert_ensures(pos, (i - 1) as usize);
        assert forall|k: int| 0 <= k < i implies (#[trigger] sort_prefix(keys, i)[k]) < i by {
            if k < pos {
                assert(sort_prefix(keys, i)[k] == o[k]);
            } else if k > pos {
                assert(sort_prefix(keys, i)[k] == o[k - 1]);
            }
        }
    }
}

proof fn lemma_insert_at_range(keys: Seq<int>, o: Seq<usize>, x: usize)
    ensures
        0 <= insert_at(keys, o, x) <= o.len(),
    decreases o.len(),
{
    if o.len() > 0 {
        lemma_insert_at_range(keys, o.drop_first(), x);
    }
}

pub proof fn lemma_stable_sorted_len(keys: Seq<int>)
    ensures
        stable_sorted(keys).len() == keys.len(),
{
    lemma_sort_prefix(keys, keys.len());
}

pub proof fn lemma_stable_sorted_in_range(keys: Seq<int>)
    ensures
        forall|k: int| 0 <= k < keys.len() ==> (#[trigger] stable_sorted(keys)[k]) < keys.len(),
{
    lemma_sort_prefix(keys, keys.len());
}

} // verus!
