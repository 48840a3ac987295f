//! The decode model and its repair rule. A table maps each id to a byte
//! string; decoding concatenates the bytes and reads them as UTF-8. Where
//! that fails — an unknown id, or a cut through a multi-byte character — the
//! longest decodable prefix of the id list is kept and every remaining id
//! becomes one replacement character, so decoding is total.

use vstd::prelude::*;
use vstd::utf8::{decode_utf8, encode_utf8, valid_utf8};

verus! {

/// The concatenated bytes of the ids' table entries.
pub open spec fn token_bytes(table: Map<u32, Seq<u8>>, ids: Seq<u32>) -> Seq<u8>
    decreases ids.len(),
{
    if ids.len() == 0 {
        Seq::empty()
    } else {
        token_bytes(table, ids.drop_last()) + table[ids.last()]
    }
}

/// Every id resolves in the table.
pub open spec fn all_known(table: Map<u32, Seq<u8>>, ids: Seq<u32>) -> bool {
    forall|i: int| 0 <= i < ids.len() ==> table.contains_key(#[trigger] ids[i])
}

/// What a direct decode yields: the ids' bytes read as UTF-8, or nothing
/// when an id is unknown or the bytes are not valid UTF-8.
pub open spec fn direct_decode(table: Map<u32, Seq<u8>>, ids: Seq<u32>) -> Option<Seq<char>> {
    if all_known(table, ids) && valid_utf8(token_bytes(table, ids)) {
        Option::Some(decode_utf8(token_bytes(table, ids)))
    } else {
        Option::None
    }
}

/// The largest prefix length at most `l` whose direct decode succeeds; `0`
/// always qualifies, since the empty prefix decodes to the empty string.
pub open spec fn best_prefix_len(table: Map<u32, Seq<u8>>, ids: Seq<u32>, l: nat) -> nat
    decreases l,
{
    if direct_decode(table, ids.take(l as int)) is Some {
        l
    } else if l == 0 {
        0
    } else {
        best_prefix_len(table, ids, (l - 1) as nat)
    }
}

/// `n` replacement characters.
pub open spec fn replacement_run(n: nat) -> Seq<char> {
    Seq::new(n, |i: int| '\u{FFFD}')
}

/// The total decode: the direct decode when it succeeds, else the longest
/// decodable proper prefix followed by one replacement character per
/// remaining id.
pub open spec fn decode_spec(table: Map<u32, Seq<u8>>, ids: Seq<u32>) -> Seq<char> {
    match direct_decode(table, ids) {
        Option::Some(text) => text,
        Option::None => {
            let k = best_prefix_len(table, ids, (ids.len() - 1) as nat);
            direct_decode(table, ids.take(k as int)).unwrap() + replacement_run(
                (ids.len() - k) as nat,
            )
        },
    }
}

/// The ids that survive special-token filtering.
pub open spec fn drop_special_ids(ids: Seq<u32>, specials: Seq<u32>) -> Seq<u32> {
    ids.filter(|id: u32| !specials.contains(id))
}

/// Where a decode at `l` succeeds and every longer prefix up to `upper`
/// fails, the best prefix length is exactly `l`.
pub proof fn lemma_best_prefix_value(table: Map<u32, Seq<u8>>, ids: Seq<u32>, upper: nat, l: nat)
    requires
        l <= upper,
        direct_decode(table, ids.take(l as int)) is Some,
        forall|m: int| l < m <= upper ==> direct_decode(table, ids.take(m)) is None,
    ensures
        best_prefix_len(table, ids, upper) == l,
    decreases upper,
{
    if upper == l {
    } else {
        assert(direct_decode(table, ids.take(upper as int)) is None);
        lemma_best_prefix_value(table, ids, (upper - 1) as nat, l);
    }
}

/// Round trip: an id sequence whose bytes spell exactly the UTF-8 encoding
/// of a text decodes back to that text.
pub proof fn lemma_round_trip(table: Map<u32, Seq<u8>>, ids: Seq<u32>, text: Seq<char>)
    requires
        all_known(table, ids),
        token_bytes(table, ids) == encode_utf8(text),
    ensures
        decode_spec(table, ids) == text,
{
    broadcast use vstd::utf8::encode_utf8_valid_utf8, vstd::utf8::encode_utf8_decode_utf8;

}

/// A single id whose bytes are not valid UTF-8 — for example the first half
/// of a multi-byte character — decodes to exactly one replacement character.
pub proof fn lemma_lone_partial_id(table: Map<u32, Seq<u8>>, id: u32)
    requires
        !valid_utf8(table[id]),
    ensures
        decode_spec(table, seq![id]) == seq!['\u{FFFD}'],
{
    let ids: Seq<u32> = seq![id];
    assert(ids.drop_last() =~= Seq::<u32>::empty());
    assert(token_bytes(table, Seq::<u32>::empty()) =~= Seq::<u8>::empty());
    assert(token_bytes(table, ids) =~= Seq::<u8>::empty() + table[id]);
    assert(token_bytes(table, ids) =~= table[id]);
    assert(direct_decode(table, ids) is None);
    assert(ids.take(0) =~= Seq::<u32>::empty());
    assert(valid_utf8(Seq::<u8>::empty()));
    assert(best_prefix_len(table, ids, 0) == 0);
    assert(decode_utf8(Seq::<u8>::empty()) =~= Seq::<char>::empty());
    assert(decode_spec(table, ids) =~= seq!['\u{FFFD}']);
}

/// Decoding is deterministic: two results of the same table and ids are the
/// same text.
pub proof fn lemma_decode_deterministic(
    table: Map<u32, Seq<u8>>,
    ids: Seq<u32>,
    r1: Seq<char>,
    r2: Seq<char>,
)
    requires
        r1 == decode_spec(table, ids),
        r2 == decode_spec(table, ids),
    ensures
        r1 == r2,
{
}

/// Special-token filtering removes every special id: no id of the filtered
/// sequence is special.
pub proof fn lemma_filter_removes_specials(ids: Seq<u32>, specials: Seq<u32>)
    ensures
        forall|i: int|
            0 <= i < drop_special_ids(ids, specials).len() ==> !specials.contains(
                #[trigger] drop_special_ids(ids, specials)[i],
            ),
{
    let filtered = drop_special_ids(ids, specials);
    assert forall|i: int| 0 <= i < filtered.len() implies !specials.contains(filtered[i]) by {
        ids.lemma_filter_pred(|id: u32| !specials.contains(id), i);
    }
}

/// Where no id is special, filtering leaves the ids unchanged.
pub proof fn lemma_filter_no_specials(ids: Seq<u32>, specials: Seq<u32>)
    requires
        forall|i: int| 0 <= i < ids.len() ==> !specials.contains(#[trigger] ids[i]),
    ensures
        drop_special_ids(ids, specials) == ids,
    decreases ids.len(),
{
    reveal(Seq::filter);
    if ids.len() == 0 {
        assert(drop_special_ids(ids, specials) =~= ids);
    } else {
        lemma_filter_no_specials(ids.drop_last(), specials);
        assert(!specials.contains(ids.last()));
        assert(drop_special_ids(ids, specials) =~= drop_special_ids(
            ids.drop_last(),
            specials,
        ).push(ids.last()));
        assert(ids.drop_last().push(ids.last()) =~= ids);
    }
}

} // verus!
