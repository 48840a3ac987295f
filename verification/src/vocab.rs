//! The vocabulary loader: special-token entries from the side config, the
//! vocabulary size rule, and the backfill of unused ranks with deterministic
//! reserved tokens so the id space `[0, vocab_size)` stays dense where the
//! model file left gaps below its largest rank.

use vstd::prelude::*;
use vstd::utf8::encode_utf8;
use crate::digits::{dec_digits, parse_u32, parse_u32_spec, render_decimal};
use crate::errors::TokenizerError;
use crate::model::{model_pairs_spec, pair_views, parse_model_file, keys_unique};

verus! {

/// One entry of the config's `added_tokens_decoder` map: the token text and
/// its descriptor flags. The flags are carried through; only `content`
/// matters to this core.
pub struct AddedToken {
    pub content: String,
    pub lstrip: bool,
    pub normalized: bool,
    pub rstrip: bool,
    pub single_word: bool,
    pub special: bool,
}

/// The decimal-string keys of the config entries.
pub open spec fn entry_keys(entries: Seq<(String, AddedToken)>) -> Seq<Seq<char>> {
    entries.map_values(|e: (String, AddedToken)| e.0@)
}

/// The token texts of the config entries.
pub open spec fn entry_contents(entries: Seq<(String, AddedToken)>) -> Seq<Seq<char>> {
    entries.map_values(|e: (String, AddedToken)| e.1.content@)
}

/// The views of a vector of strings.
pub open spec fn string_views(ss: Seq<String>) -> Seq<Seq<char>> {
    ss.map_values(|s: String| s@)
}

/// What a config key parses to as a token id.
pub open spec fn key_id(k: Seq<char>) -> Option<u32> {
    parse_u32_spec(encode_utf8(k))
}

/// The ids of the config keys in order, or the first key that does not
/// parse.
pub open spec fn entry_ids_acc(keys: Seq<Seq<char>>, acc: Seq<u32>) -> Result<Seq<u32>, Seq<char>>
    decreases keys.len(),
{
    if keys.len() == 0 {
        Result::Ok(acc)
    } else {
        match key_id(keys[0]) {
            Option::None => Result::Err(keys[0]),
            Option::Some(id) => entry_ids_acc(keys.drop_first(), acc.push(id)),
        }
    }
}

pub open spec fn entry_ids_spec(keys: Seq<Seq<char>>) -> Result<Seq<u32>, Seq<char>> {
    entry_ids_acc(keys, seq![])
}

/// The largest rank among the pairs, or `0` when there are none.
pub open spec fn max_rank_of(pairs: Seq<(Seq<u8>, u32)>) -> u32
    decreases pairs.len(),
{
    if pairs.len() == 0 {
        0u32
    } else {
        let m = max_rank_of(pairs.drop_last());
        if pairs.last().1 > m {
            pairs.last().1
        } else {
            m
        }
    }
}

/// The largest id in the sequence, or `0` when there are none.
pub open spec fn max_id_of(ids: Seq<u32>) -> u32
    decreases ids.len(),
{
    if ids.len() == 0 {
        0u32
    } else {
        let m = max_id_of(ids.drop_last());
        if ids.last() > m {
            ids.last()
        } else {
            m
        }
    }
}

pub proof fn lemma_max_rank_bound(pairs: Seq<(Seq<u8>, u32)>)
    ensures
        forall|i: int| 0 <= i < pairs.len() ==> (#[trigger] pairs[i]).1 <= max_rank_of(pairs),
    decreases pairs.len(),
{
    if pairs.len() > 0 {
        lemma_max_rank_bound(pairs.drop_last());
        assert(forall|i: int| 0 <= i < pairs.len() - 1 ==> pairs[i] == pairs.drop_last()[i]);
    }
}

/// True when some pair carries this rank.
pub open spec fn values_contain<K>(pairs: Seq<(K, u32)>, rank: u32) -> bool {
    exists|i: int| 0 <= i < pairs.len() && (#[trigger] pairs[i]).1 == rank
}

/// The first rank that repeats, scanning from index `i`.
pub open spec fn first_dup_from<K>(pairs: Seq<(K, u32)>, i: nat) -> Option<u32>
    decreases pairs.len() - i,
{
    if i >= pairs.len() {
        Option::None
    } else if exists|j: int| 0 <= j < i && (#[trigger] pairs[j]).1 == pairs[i as int].1 {
        Option::Some(pairs[i as int].1)
    } else {
        first_dup_from(pairs, i + 1)
    }
}

/// True when no two pairs carry the same rank.
pub open spec fn ranks_distinct<K>(pairs: Seq<(K, u32)>) -> bool {
    forall|i: int, j: int|
        0 <= i < j < pairs.len() ==> (#[trigger] pairs[i]).1 != (#[trigger] pairs[j]).1
}

pub proof fn lemma_no_dup_distinct<K>(pairs: Seq<(K, u32)>, i: nat)
    requires
        first_dup_from(pairs, i) is None,
        forall|i1: int, j1: int|
            0 <= i1 < j1 < i ==> (#[trigger] pairs[i1]).1 != (#[trigger] pairs[j1]).1,
        i <= pairs.len(),
    ensures
        ranks_distinct(pairs),
    decreases pairs.len() - i,
{
    if i < pairs.len() {
        assert(forall|j: int| 0 <= j < i ==> (#[trigger] pairs[j]).1 != pairs[i as int].1);
        lemma_no_dup_distinct(pairs, i + 1);
    }
}

/// How many ranks in `[0, upto)` no pair carries.
pub open spec fn gap_count(pairs: Seq<(Seq<u8>, u32)>, upto: nat) -> nat
    decreases upto,
{
    if upto == 0 {
        0
    } else {
        gap_count(pairs, (upto - 1) as nat) + if values_contain(pairs, (upto - 1) as u32) {
            0nat
        } else {
            1nat
        }
    }
}

pub proof fn lemma_gap_count_le(pairs: Seq<(Seq<u8>, u32)>, upto: nat)
    ensures
        gap_count(pairs, upto) <= upto,
    decreases upto,
{
    if upto > 0 {
        lemma_gap_count_le(pairs, (upto - 1) as nat);
    }
}

/// The deterministic name of the `n`-th reserved backfill token.
pub open spec fn reserved_token_bytes(n: nat) -> Seq<u8> {
    encode_utf8("<|reserved_special_token_"@) + dec_digits(n) + encode_utf8("|>"@)
}

/// The pairs with every gap rank in `[0, upto)` filled, in ascending rank
/// order, by reserved tokens numbered from `0`.
pub open spec fn with_backfill(pairs: Seq<(Seq<u8>, u32)>, upto: nat) -> Seq<(Seq<u8>, u32)>
    decreases upto,
{
    if upto == 0 {
        pairs
    } else {
        let prev = with_backfill(pairs, (upto - 1) as nat);
        if values_contain(pairs, (upto - 1) as u32) {
            prev
        } else {
            prev.push((reserved_token_bytes(gap_count(pairs, (upto - 1) as nat)), (upto - 1) as u32))
        }
    }
}

/// The dense vocabulary and special-token sets built once at construction.
#[derive(Debug)]
pub struct Vocabulary {
    /// Token bytes and their ranks, gaps backfilled; the id space of the
    /// ordinary vocabulary.
    pub encoder: Vec<(Vec<u8>, u32)>,
    /// The token text of every config entry, in entry order.
    pub special_tokens: Vec<String>,
    /// The id of every config entry, in entry order.
    pub special_token_ids: Vec<u32>,
    /// `max(largest rank, largest special id) + 1`.
    pub vocab_size: u32,
}

/// The vocabulary-size rule: one past the largest of the largest rank and
/// the largest special id.
pub open spec fn vocab_size_max(pairs: Seq<(Seq<u8>, u32)>, ids: Seq<u32>) -> u32 {
    if max_rank_of(pairs) > max_id_of(ids) {
        max_rank_of(pairs)
    } else {
        max_id_of(ids)
    }
}

/// Load the vocabulary from the model-file text and the config's
/// `added_tokens_decoder` entries.
///
/// On success the encoder holds the model file's pairs (last line wins for a
/// repeated token) followed by a reserved token for every rank gap below the
/// largest rank, the special sets mirror the entries in order, and
/// `vocab_size` is `max(max rank, max special id) + 1`. The first malformed
/// model line, the first unparsable config key, a size that cannot be
/// represented, and a repeated rank are each reported, in that order of
/// precedence.
#[verifier::loop_isolation(false)]
#[verifier::rlimit(60)]
pub fn load_vocabulary(model_text: &[u8], entries: &Vec<(String, AddedToken)>) -> (r: Result<
    Vocabulary,
    TokenizerError,
>)
    ensures
        ({
            let pairs_r = model_pairs_spec(model_text@);
            let ids_r = entry_ids_spec(entry_keys(entries@));
            match r {
                Result::Ok(v) => {
                    &&& pairs_r is Ok
                    &&& ids_r is Ok
                    &&& ({
                        let pairs = pairs_r->Ok_0;
                        let ids = ids_r->Ok_0;
                        &&& vocab_size_max(pairs, ids) < u32::MAX
                        &&& first_dup_from(pairs, 0) is None
                        &&& v.vocab_size == vocab_size_max(pairs, ids) + 1
                        &&& pair_views(v.encoder@) == with_backfill(
                            pairs,
                            max_rank_of(pairs) as nat,
                        )
                        &&& v.special_token_ids@ == ids
                        &&& string_views(v.special_tokens@) == entry_contents(entries@)
                        &&& keys_unique(pairs)
                        &&& ranks_distinct(pairs)
                    })
                },
                Result::Err(e) => match e {
                    TokenizerError::Format { line, kind } => pairs_r == Result::<
                        Seq<(Seq<u8>, u32)>,
                        (nat, crate::errors::LineErrorKind),
                    >::Err((line as nat, kind)),
                    TokenizerError::BadSpecialId { key } => pairs_r is Ok && ids_r == Result::<
                        Seq<u32>,
                        Seq<char>,
                    >::Err(key@),
                    TokenizerError::RankOverflow => pairs_r is Ok && ids_r is Ok
                        && vocab_size_max(pairs_r->Ok_0, ids_r->Ok_0) == u32::MAX,
                    TokenizerError::DuplicateRank { rank } => pairs_r is Ok && ids_r is Ok
                        && vocab_size_max(pairs_r->Ok_0, ids_r->Ok_0) < u32::MAX
                        && first_dup_from(pairs_r->Ok_0, 0) == Option::Some(rank),
                    _ => false,
                },
            }
        }),
{
    let pairs = match parse_model_file(model_text) {
        Result::Ok(p) => p,
        Result::Err(e) => {
            return Result::Err(e);
        },
    };
    let ghost pv = pair_views(pairs@);

    // Parse the config keys into special-token ids.
    let mut ids: Vec<u32> = Vec::new();
    let mut contents: Vec<String> = Vec::new();
    let mut i: usize = 0;
    proof {
        assert(entry_keys(entries@).skip(0) =~= entry_keys(entries@));
        assert(ids@ =~= Seq::<u32>::empty());
    }
    while i < entries.len()
        invariant
            0 <= i <= entries@.len(),
            entry_ids_spec(entry_keys(entries@)) == entry_ids_acc(
                entry_keys(entries@).skip(i as int),
                ids@,
            ),
            string_views(contents@) =~= entry_contents(entries@).take(i as int),
        decreases entries@.len() - i,
    {
        proof {
            let rest = entry_keys(entries@).skip(i as int);
            assert(rest[0] == entries@[i as int].0@);
            assert(rest.drop_first() =~= entry_keys(entries@).skip(i + 1));
        }
        let key_str: &String = &entries[i].0;
        let key_bytes: &[u8] = key_str.as_str().as_bytes();
        proof {
            assert(key_bytes@ == encode_utf8(key_str@));
            assert(parse_u32_spec(key_bytes@) == key_id(entries@[i as int].0@));
        }
        match parse_u32(key_bytes) {
            Option::None => {
                proof {
                    let rest = entry_keys(entries@).skip(i as int);
                    assert(key_id(rest[0]) is None);
                    assert(entry_ids_spec(entry_keys(entries@)) == Result::<
                        Seq<u32>,
                        Seq<char>,
                    >::Err(rest[0]));
                }
                return Result::Err(TokenizerError::BadSpecialId { key: key_str.clone() });
            },
            Option::Some(id) => {
                ids.push(id);
            },
        }
        contents.push(entries[i].1.content.clone());
        proof {
            let post = entry_contents(entries@).take(i + 1);
            assert(entry_contents(entries@).len() == entries@.len());
            assert(contents@.len() == i + 1);
            assert forall|q: int| 0 <= q < contents@.len() implies string_views(contents@)[q]
                == post[q] by {
                assert(string_views(contents@)[q] == contents@[q]@);
                assert(post[q] == entry_contents(entries@)[q]);
                assert(entry_contents(entries@)[q] == entries@[q].1.content@);
            }
            assert(string_views(contents@) =~= post);
        }
        i = i + 1;
    }
    proof {
        assert(entry_keys(entries@).skip(entries@.len() as int) =~= Seq::<Seq<char>>::empty());
        assert(entry_contents(entries@).take(entries@.len() as int) =~= entry_contents(entries@));
    }

    // The largest rank and special id.
    let mut maxr: u32 = 0;
    let mut j: usize = 0;
    proof {
        assert(pv.take(0) =~= Seq::<(Seq<u8>, u32)>::empty());
    }
    while j < pairs.len()
        invariant
            0 <= j <= pairs@.len(),
            pv == pair_views(pairs@),
            maxr == max_rank_of(pv.take(j as int)),
        decreases pairs@.len() - j,
    {
        proof {
            assert(pv.take(j + 1).drop_last() =~= pv.take(j as int));
            assert(pv.take(j + 1).last() == pv[j as int]);
        }
        let rank = pairs[j].1;
        if rank > maxr {
            maxr = rank;
        }
        j = j + 1;
    }
    proof {
        assert(pv.take(pv.len() as int) =~= pv);
    }

    let mut maxs: u32 = 0;
    let mut k: usize = 0;
    proof {
        assert(ids@.take(0) =~= Seq::<u32>::empty());
    }
    while k < ids.len()
        invariant
            0 <= k <= ids@.len(),
            maxs == max_id_of(ids@.take(k as int)),
        decreases ids@.len() - k,
    {
        proof {
            assert(ids@.take(k + 1).drop_last() =~= ids@.take(k as int));
            assert(ids@.take(k + 1).last() == ids@[k as int]);
        }
        let id = ids[k];
        if id > maxs {
            maxs = id;
        }
        k = k + 1;
    }
    proof {
        assert(ids@.take(ids@.len() as int) =~= ids@);
    }

    let m: u32 = if maxr > maxs {
        maxr
    } else {
        maxs
    };
    if m == u32::MAX {
        return Result::Err(TokenizerError::RankOverflow);
    }

    // Mark which ranks occur, and reject a repeated rank.
    let mut seen: Vec<bool> = vec![false; (maxr as usize) + 1];
    let mut t: usize = 0;
    proof {
        lemma_max_rank_bound(pv);
    }
    while t < pairs.len()
        invariant
            0 <= t <= pairs@.len(),
            pv == pair_views(pairs@),
            maxr == max_rank_of(pv),
            seen@.len() == maxr + 1,
            forall|i2: int| 0 <= i2 < pv.len() ==> (#[trigger] pv[i2]).1 <= maxr,
            forall|r2: int|
                0 <= r2 <= maxr ==> (#[trigger] seen@[r2] == (exists|j2: int|
                    0 <= j2 < t && (#[trigger] pv[j2]).1 == r2)),
            first_dup_from(pv, 0) == first_dup_from(pv, t as nat),
        decreases pairs@.len() - t,
    {
        let rank = pairs[t].1;
        assert(pv[t as int].1 == rank);
        if seen[rank as usize] {
            proof {
                assert(exists|j2: int| 0 <= j2 < t && (#[trigger] pv[j2]).1 == rank);
                assert(first_dup_from(pv, t as nat) == Option::Some(rank));
            }
            return Result::Err(TokenizerError::DuplicateRank { rank });
        }
        seen.set(rank as usize, true);
        proof {
            assert(!(exists|j2: int| 0 <= j2 < t && (#[trigger] pv[j2]).1 == pv[t as int].1));
            assert(first_dup_from(pv, t as nat) == first_dup_from(pv, (t + 1) as nat));
        }
        t = t + 1;
    }
    proof {
        assert(first_dup_from(pv, pv.len() as nat) is None);
        lemma_no_dup_distinct(pv, 0nat);
        assert forall|r2: u32| 0 <= r2 <= maxr implies seen@[r2 as int] == values_contain(
            pv,
            r2,
        ) by {}
    }

    // Backfill every gap rank with a reserved token.
    let mut encoder = pairs;
    let mut counter: u32 = 0;
    let mut r2: u32 = 0;
    proof {
        lemma_gap_count_le(pv, maxr as nat);
    }
    while r2 < maxr
        invariant
            0 <= r2 <= maxr,
            maxr < u32::MAX,
            seen@.len() == maxr + 1,
            forall|q: u32| 0 <= q <= maxr ==> seen@[q as int] == values_contain(pv, q),
            counter == gap_count(pv, r2 as nat),
            counter <= r2,
            pair_views(encoder@) == with_backfill(pv, r2 as nat),
        decreases maxr - r2,
    {
        if !seen[r2 as usize] {
            let mut name: Vec<u8> = Vec::new();
            name.extend_from_slice("<|reserved_special_token_".as_bytes());
            let digits = render_decimal(counter);
            name.extend_from_slice(digits.as_slice());
            name.extend_from_slice("|>".as_bytes());
            proof {
                assert(name@ =~= reserved_token_bytes(counter as nat));
            }
            let ghost pre = pair_views(encoder@);
            encoder.push((name, r2));
            proof {
                assert(pair_views(encoder@) =~= pre.push(
                    (reserved_token_bytes(counter as nat), r2),
                ));
                lemma_gap_count_le(pv, (r2 + 1) as nat);
            }
            counter = counter + 1;
        }
        r2 = r2 + 1;
    }

    let vocab_size = m + 1;
    Result::Ok(
        Vocabulary { encoder, special_tokens: contents, special_token_ids: ids, vocab_size },
    )
}

/// A successful id parse yields one id per key.
pub proof fn lemma_entry_ids_len(keys: Seq<Seq<char>>, acc: Seq<u32>)
    requires
        entry_ids_acc(keys, acc) is Ok,
    ensures
        entry_ids_acc(keys, acc)->Ok_0.len() == acc.len() + keys.len(),
    decreases keys.len(),
{
    if keys.len() > 0 {
        match key_id(keys[0]) {
            Option::None => {},
            Option::Some(id) => {
                lemma_entry_ids_len(keys.drop_first(), acc.push(id));
            },
        }
    }
}

/// Backfill keeps the original pairs as a prefix and appends only gap
/// ranks, each below `upto`, in strictly ascending order; with the original
/// ranks distinct, all ranks stay distinct.
pub proof fn lemma_backfill(pairs: Seq<(Seq<u8>, u32)>, upto: nat)
    requires
        ranks_distinct(pairs),
        upto <= u32::MAX,
    ensures
        with_backfill(pairs, upto).len() >= pairs.len(),
        forall|i: int|
            0 <= i < pairs.len() ==> #[trigger] with_backfill(pairs, upto)[i] == pairs[i],
        forall|i: int|
            pairs.len() <= i < with_backfill(pairs, upto).len() ==> (
            #[trigger] with_backfill(pairs, upto)[i]).1 < upto && !values_contain(
                pairs,
                with_backfill(pairs, upto)[i].1,
            ),
        forall|i: int, j: int|
            pairs.len() <= i < j < with_backfill(pairs, upto).len() ==> (
            #[trigger] with_backfill(pairs, upto)[i]).1 < (#[trigger] with_backfill(
                pairs,
                upto,
            )[j]).1,
        ranks_distinct(with_backfill(pairs, upto)),
    decreases upto,
{
    if upto > 0 {
        lemma_backfill(pairs, (upto - 1) as nat);
        let prev = with_backfill(pairs, (upto - 1) as nat);
        let cur = with_backfill(pairs, upto);
        if values_contain(pairs, (upto - 1) as u32) {
        } else {
            assert(forall|i: int| 0 <= i < prev.len() ==> cur[i] == prev[i]);
            assert(cur[prev.len() as int].1 == (upto - 1) as u32);
            assert forall|i: int, j: int| 0 <= i < j < cur.len() implies (#[trigger] cur[i]).1 != (
            #[trigger] cur[j]).1 by {
                if j == prev.len() {
                    if i < pairs.len() {
                        assert(!values_contain(pairs, cur[j].1));
                        assert(pairs[i].1 != cur[j].1);
                    } else {
                        assert(cur[i].1 < upto - 1);
                    }
                }
            }
        }
    }
}

} // verus!
