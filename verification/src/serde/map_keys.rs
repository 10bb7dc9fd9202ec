//! Maps keyed by byte counts in serialized data: each key is written and read as a
//! byte count is.
use crate::serde::{input_value, represents, ByteInput, ByteInputError, ByteRepr};
use std::collections::BTreeMap;
use vstd::std_specs::cmp::OrdSpec;
use vstd::std_specs::iter::IteratorSpec;
use vstd::prelude::*;

verus! {

/// The map that reading `entries` in order gives: each key read as a byte count and its
/// entry inserted, a later entry replacing an earlier one with the same count; the first
/// key that is not a byte count is the error.
pub open spec fn decoded<V>(entries: Seq<(ByteInput, V)>) -> Result<Map<u64, V>, ByteInputError>
    decreases entries.len(),
{
    if entries.len() == 0 {
        Ok(Map::empty())
    } else {
        match decoded(entries.drop_last()) {
            Err(e) => Err(e),
            Ok(m) => match input_value(entries.last().0) {
                Err(e) => Err(e),
                Ok(k) => Ok(m.insert(k, entries.last().1)),
            },
        }
    }
}

/// Once a prefix of the entries fails to read, so do all the entries, with its error.
proof fn lemma_decoded_error_stays<V>(entries: Seq<(ByteInput, V)>, j: int, e: ByteInputError)
    requires
        0 <= j <= entries.len(),
        decoded(entries.take(j)) == Err::<Map<u64, V>, ByteInputError>(e),
    ensures
        decoded(entries) == Err::<Map<u64, V>, ByteInputError>(e),
    decreases entries.len() - j,
{
    if j < entries.len() {
        assert(entries.take(j + 1).drop_last() =~= entries.take(j));
        lemma_decoded_error_stays(entries, j + 1, e);
    } else {
        assert(entries.take(j) =~= entries);
    }
}

/// Reads a map keyed by byte counts from its entries, in the order they come.
pub fn deserialize<V>(entries: Vec<(ByteInput, V)>) -> (r: Result<BTreeMap<u64, V>, ByteInputError>)
    ensures
        match decoded(entries@) {
            Ok(m) => r matches Ok(map) && map@ == m,
            Err(e) => r == Err::<BTreeMap<u64, V>, ByteInputError>(e),
        },
{
    let ghost all = entries@;
    let mut map: BTreeMap<u64, V> = BTreeMap::new();
    proof {
        assert(all.take(0) =~= Seq::<(ByteInput, V)>::empty());
    }
    for entry in it: entries.into_iter()
        invariant
            it.seq() == all,
            decoded(all.take(it.index() as int)) == Ok::<Map<u64, V>, ByteInputError>(map@),
    {
        let ghost i = it.index() as int;
        let (input, value) = entry;
        proof {
            assert(all.take(i + 1).drop_last() =~= all.take(i));
            assert(all.take(i + 1).last() == all[i]);
        }
        match super::deserialize(input) {
            Ok(k) => {
                map.insert(k, value);
            },
            Err(e) => {
                proof {
                    lemma_decoded_error_stays(all, i + 1, e);
                }
                return Err(e);
            },
        }
    }
    proof {
        assert(all.take(all.len() as int) =~= all);
    }
    Ok(map)
}

/// Whether `written` is the entries of `map` as they are written, keys in the order
/// `keys`: each key by what is written for it as a byte count, with its value.
pub open spec fn written_in_order<V>(
    written: Seq<(ByteRepr, &V)>,
    map: Map<u64, V>,
    keys: Seq<u64>,
    human_readable: bool,
) -> bool {
    &&& keys.len() == written.len()
    &&& keys.to_set() == map.dom()
    &&& forall|i: int| 0 <= i < keys.len() ==> represents(#[trigger] written[i].0, keys[i], human_readable)
        && *written[i].1 == map[keys[i]]
}

/// The entries of `map` as they are written, in increasing order of their keys: each
/// key by what is written for it as a byte count, with its value.
pub fn serialize<V>(map: &BTreeMap<u64, V>, human_readable: bool) -> (r: Vec<(ByteRepr, &V)>)
    ensures
        exists|keys: Seq<u64>|
            {
                &&& #[trigger] written_in_order(r@, map@, keys, human_readable)
                &&& forall|i: int, j: int| 0 <= i < j < keys.len() ==> keys[i] < keys[j]
            },
{
    broadcast use vstd::std_specs::btree::group_btree_axioms;

    let mut out: Vec<(ByteRepr, &V)> = Vec::new();
    let ghost entries = vstd::std_specs::btree::spec_btree_map_iter(map).remaining();
    assert(vstd::std_specs::btree::key_obeys_cmp_spec::<u64>());
    for kv in it: map.iter()
        invariant
            it.seq() == entries,
            out.len() == it.index(),
            forall|i: int|
                0 <= i < out.len() ==> represents(#[trigger] out[i].0, *it.seq()[i].0, human_readable)
                    && out[i].1 == it.seq()[i].1,
    {
        let (k, v) = kv;
        out.push((super::serialize(*k, human_readable), v));
    }
    let ghost keys = entries.map_values(|kv: (&u64, &V)| *kv.0);
    proof {
        assert(out.len() == entries.len());
        assert(keys.len() == out.len());
        assert forall|i: int, j: int| 0 <= i < j < keys.len() implies keys[i] < keys[j] by {
            assert(keys[i].cmp_spec(&keys[j]) is Less);
        }
        assert forall|i: int| 0 <= i < keys.len() implies #[trigger] map@.contains_key(keys[i])
            && map@[keys[i]] == *entries[i].1 by {
            assert(keys[i] == *entries[i].0);
        }
        assert forall|k: u64| #[trigger] map@.contains_key(k) implies keys.contains(k) by {
            assert(entries.contains((&k, &map@[k])));
            let i = choose|i: int| 0 <= i < entries.len() && entries[i] == (&k, &map@[k]);
            assert(keys[i] == k);
        }
        assert(keys.to_set() =~= map@.dom());
        assert forall|i: int| 0 <= i < keys.len() implies represents(
            #[trigger] out[i].0,
            keys[i],
            human_readable,
        ) && *out[i].1 == map@[keys[i]] by {
            assert(keys[i] == *entries[i].0);
            assert(map@.contains_key(keys[i]));
        }
        assert(written_in_order(out@, map@, keys, human_readable));
    }
    out
}

} // verus!
