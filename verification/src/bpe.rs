//! The calls into `tiktoken_rs`: building a `CoreBPE` from the loaded
//! vocabulary, encoding text, and decoding ids. The backend's tables are
//! modelled by named maps; construction pins them to the pairs handed over,
//! and decoding is pinned exactly, which is what the repair algorithm and
//! its laws rest on.

use vstd::prelude::*;
use vstd::utf8::encode_utf8;
use vstd::utf8::valid_utf8;
use vstd::utf8::decode_utf8;
use crate::repair::{all_known, token_bytes};

verus! {

#[verifier::external_type_specification]
#[verifier::external_body]
pub struct ExCoreBPE(tiktoken_rs::CoreBPE);

/// The key set of the backend's ordinary encoder.
pub uninterp spec fn bpe_keys(b: tiktoken_rs::CoreBPE) -> Set<Seq<u8>>;

/// The backend's special-token map: token text to id.
pub uninterp spec fn bpe_specials(b: tiktoken_rs::CoreBPE) -> Map<Seq<char>, u32>;

/// What the backend's decoder resolves each id to: the ordinary vocabulary
/// first, then the special tokens.
pub uninterp spec fn bpe_table(b: tiktoken_rs::CoreBPE) -> Map<u32, Seq<u8>>;

/// What `CoreBPE::encode` returns for a text and a set of allowed special
/// tokens — `None` where the engine reports a pattern fault — a pure
/// function of the backend's tables and pattern.
pub uninterp spec fn bpe_encoding(
    b: tiktoken_rs::CoreBPE,
    text: Seq<char>,
    allowed: Set<Seq<char>>,
) -> Option<Seq<u32>>;

/// Whether the backend's tokenization pattern matches a partition of the
/// whole text, leaving no byte out.
pub uninterp spec fn bpe_covers(b: tiktoken_rs::CoreBPE, text: Seq<char>) -> bool;

/// Whether the pattern text compiles and scanning the haystack with the
/// given UTF-8 bytes yields a zero-width match (under the match iterator's
/// rule of skipping an empty match adjacent to the previous one); `false`
/// where the pattern does not compile.
pub uninterp spec fn pattern_empty_piece(pattern: Seq<char>, slice: Seq<u8>) -> bool;

/// The same question of the backend's stored pattern.
pub uninterp spec fn bpe_empty_piece(b: tiktoken_rs::CoreBPE, slice: Seq<u8>) -> bool;

/// `w` occurs in `text` at byte position `i`.
pub open spec fn occurs_at(text: Seq<u8>, w: Seq<u8>, i: int) -> bool {
    0 <= i && i + w.len() <= text.len() && text.subrange(i, i + w.len()) == w
}

/// A byte position where the engine's special splitting can cut the text:
/// an end of the text, or a position adjacent to an occurrence of an
/// allowed special text.
pub open spec fn boundary_pos(text: Seq<u8>, allowed: Seq<Seq<char>>, p: int) -> bool {
    ||| p == 0
    ||| p == text.len()
    ||| exists|k: int, i: int|
        0 <= k < allowed.len() && #[trigger] occurs_at(text, encode_utf8(allowed[k]), i) && (p == i
            || p == i + encode_utf8(allowed[k]).len())
}

/// A slice the engine's piece scan could be handed: boundary positions on
/// both sides, at character boundaries.
pub open spec fn guard_slice(text: Seq<u8>, allowed: Seq<Seq<char>>, s: int, e: int) -> bool {
    &&& 0 <= s <= e <= text.len()
    &&& boundary_pos(text, allowed, s)
    &&& boundary_pos(text, allowed, e)
    &&& vstd::utf8::is_char_boundary(text, s)
    &&& vstd::utf8::is_char_boundary(text, e)
}

/// Whether `CoreBPE::new` accepts the pattern and the special texts: both
/// its regexes compile.
pub uninterp spec fn bpe_construction_ok(
    pattern: Seq<char>,
    specials: Seq<(Seq<char>, u32)>,
) -> bool;

/// Every byte of the text is an ordinary single-byte token.
pub open spec fn bytes_covered(keys: Set<Seq<u8>>, text: Seq<char>) -> bool {
    forall|i: int|
        0 <= i < encode_utf8(text).len() ==> keys.contains(seq![#[trigger] encode_utf8(text)[i]])
}

/// Pair `i` survives last-wins insertion when no later pair repeats its key.
pub open spec fn surviving(pairs: Seq<(Seq<u8>, u32)>, i: int) -> bool {
    forall|j: int| i < j < pairs.len() ==> (#[trigger] pairs[j]).0 != pairs[i].0
}

/// The key set after last-wins insertion of the pairs.
pub open spec fn pairs_key_set(pairs: Seq<(Seq<u8>, u32)>) -> Set<Seq<u8>> {
    Set::new(|k: Seq<u8>| exists|i: int| 0 <= i < pairs.len() && (#[trigger] pairs[i]).0 == k)
}

/// Some surviving pair carries this rank.
pub open spec fn ord_has(pairs: Seq<(Seq<u8>, u32)>, id: u32) -> bool {
    exists|i: int|
        0 <= i < pairs.len() && (#[trigger] pairs[i]).1 == id && surviving(pairs, i)
}

/// The token bytes of the surviving pair with this rank.
pub open spec fn ord_bytes(pairs: Seq<(Seq<u8>, u32)>, id: u32) -> Seq<u8> {
    let i = choose|i: int|
        0 <= i < pairs.len() && (#[trigger] pairs[i]).1 == id && surviving(pairs, i);
    pairs[i].0
}

/// The views of special-token pairs.
pub open spec fn special_views(specials: Seq<(String, u32)>) -> Seq<(Seq<char>, u32)> {
    specials.map_values(|p: (String, u32)| (p.0@, p.1))
}

/// The special-token map built by last-wins insertion.
pub open spec fn specials_map(specials: Seq<(Seq<char>, u32)>) -> Map<Seq<char>, u32>
    decreases specials.len(),
{
    if specials.len() == 0 {
        Map::empty()
    } else {
        specials_map(specials.drop_last()).insert(specials.last().0, specials.last().1)
    }
}

/// Some special token carries this id.
pub open spec fn special_id_has(specials: Seq<(Seq<char>, u32)>, id: u32) -> bool {
    exists|i: int| 0 <= i < specials.len() && (#[trigger] specials[i]).1 == id
}

/// The UTF-8 bytes of the special token with this id.
pub open spec fn special_id_bytes(specials: Seq<(Seq<char>, u32)>, id: u32) -> Seq<u8> {
    let i = choose|i: int| 0 <= i < specials.len() && (#[trigger] specials[i]).1 == id;
    encode_utf8(specials[i].0)
}

/// The decoder that construction from these pairs yields: each surviving
/// rank maps to its token bytes, and each special id not shadowed by a rank
/// maps to its token text's bytes.
pub open spec fn decode_table_of(
    pairs: Seq<(Seq<u8>, u32)>,
    specials: Seq<(Seq<char>, u32)>,
) -> Map<u32, Seq<u8>> {
    Map::new(
        |id: u32| ord_has(pairs, id) || special_id_has(specials, id),
        |id: u32|
            if ord_has(pairs, id) {
                ord_bytes(pairs, id)
            } else {
                special_id_bytes(specials, id)
            },
    )
}

/// Every key of the special map is one of the pair texts.
pub proof fn lemma_specials_map_dom(specials: Seq<(Seq<char>, u32)>)
    ensures
        forall|k: Seq<char>|
            #[trigger] specials_map(specials).contains_key(k) ==> (exists|i: int|
                0 <= i < specials.len() && (#[trigger] specials[i]).0 == k),
    decreases specials.len(),
{
    if specials.len() > 0 {
        lemma_specials_map_dom(specials.drop_last());
        assert forall|k: Seq<char>| #[trigger] specials_map(specials).contains_key(k) implies (
        exists|i: int| 0 <= i < specials.len() && (#[trigger] specials[i]).0 == k) by {
            if k == specials.last().0 {
                assert(specials[specials.len() - 1].0 == k);
            } else {
                assert(specials_map(specials.drop_last()).contains_key(k));
                let i = choose|i: int|
                    0 <= i < specials.drop_last().len() && (#[trigger] specials.drop_last()[i]).0
                        == k;
                assert(specials[i].0 == k);
            }
        }
    }
}

/// Relies on `fancy_regex::Regex::new` and its match iterator, at the same
/// version the engine links: whether scanning the given slice of the text
/// yields a zero-width match — the question the engine's piece scan answers
/// on that slice — `false` where the pattern does not compile. The scan
/// stops at the iterator's first fault, exactly where the engine's does.
#[verifier::external_body]
pub(crate) fn pattern_empty_piece_on(pattern: &str, text: &str, s: usize, e: usize) -> (r: bool)
    requires
        s <= e,
        e <= encode_utf8(text@).len(),
        vstd::utf8::is_char_boundary(encode_utf8(text@), s as int),
        vstd::utf8::is_char_boundary(encode_utf8(text@), e as int),
    ensures
        r == pattern_empty_piece(pattern@, encode_utf8(text@).subrange(s as int, e as int)),
{
    match fancy_regex::Regex::new(pattern) {
        Ok(re) => re.find_iter(&text[s..e]).map_while(|m| m.ok()).any(|m| m.start() == m.end()),
        Err(_) => false,
    }
}

/// The set of views of a vector of strings.
pub open spec fn string_set(ss: Seq<String>) -> Set<Seq<char>> {
    Set::new(|k: Seq<char>| exists|i: int| 0 <= i < ss.len() && (#[trigger] ss[i])@ == k)
}

/// Relies on `tiktoken_rs::CoreBPE::new`: it builds the ordinary and
/// special encoder maps by last-wins insertion, inverts them into decoders,
/// and compiles the pattern and the special-token alternation, failing
/// exactly when one of the two does not compile. It asserts that no two
/// surviving entries share a rank, so distinct ranks are required; the
/// inverted special decoder is only well defined when special texts and ids
/// are distinct. The stored pattern is the one compiled here, so its
/// empty-match behavior is the pattern text's.
#[verifier::external_body]
pub(crate) fn bpe_new(
    encoder: &Vec<(Vec<u8>, u32)>,
    specials: &Vec<(String, u32)>,
    pattern: &str,
) -> (r: Result<tiktoken_rs::CoreBPE, String>)
    requires
        crate::vocab::ranks_distinct(crate::model::pair_views(encoder@)),
        forall|i: int, j: int|
            0 <= i < j < specials@.len() ==> (#[trigger] specials@[i]).0@ != (
            #[trigger] specials@[j]).0@,
        forall|i: int, j: int|
            0 <= i < j < specials@.len() ==> (#[trigger] specials@[i]).1 != (
            #[trigger] specials@[j]).1,
    ensures
        r is Ok <==> bpe_construction_ok(pattern@, special_views(specials@)),
        r is Ok ==> bpe_keys(r->Ok_0) == pairs_key_set(crate::model::pair_views(encoder@)),
        r is Ok ==> bpe_specials(r->Ok_0) == specials_map(special_views(specials@)),
        r is Ok ==> bpe_table(r->Ok_0) == decode_table_of(
            crate::model::pair_views(encoder@),
            special_views(specials@),
        ),
        r is Ok ==> (forall|sl: Seq<u8>|
            #[trigger] bpe_empty_piece(r->Ok_0, sl) == pattern_empty_piece(pattern@, sl)),
{
    match tiktoken_rs::CoreBPE::new(
        encoder.iter().cloned().collect(),
        specials.iter().cloned().collect(),
        pattern,
    ) {
        Ok(b) => Ok(b),
        Err(e) => Err(format!("{}", e)),
    }
}

/// Relies on `CoreBPE::encode`: a deterministic function of the backend and
/// its arguments, it tokenizes the pattern's matches and elevates matches of
/// allowed special tokens to their ids, failing exactly when the engine
/// reports a pattern fault. Its ids all resolve in the decoder, and with no
/// special token allowed the tokens of the matched pieces spell the text
/// itself, so when the pattern covers the whole text the ids' bytes are
/// exactly the text's bytes. Three panic paths of the source are excluded:
/// `byte_pair_encode` indexes single-byte tokens directly, so every byte of
/// the text must be an ordinary token; an empty special-token text makes
/// the special scan match without advancing, so neither the backend nor the
/// allowed list may hold one; and a zero-width pattern match makes the
/// piece scan hand the byte-pair splitter an empty piece it cannot split.
/// The engine scans the whole text, or — where an allowed special token
/// matched — the stretches between such matches; every such stretch runs
/// between character-boundary cut points adjacent to occurrences of allowed
/// special texts, so it is `guard_slice`-covered, and the last premise
/// keeps them all free of zero-width matches unless the empty byte string
/// is itself a token.
#[verifier::external_body]
pub(crate) fn bpe_encode(b: &tiktoken_rs::CoreBPE, text: &str, allowed: &Vec<String>) -> (r:
    Result<Vec<u32>, String>)
    requires
        bytes_covered(bpe_keys(*b), text@),
        !bpe_specials(*b).contains_key(Seq::<char>::empty()),
        forall|i: int| 0 <= i < allowed@.len() ==> (#[trigger] allowed@[i])@.len() > 0,
        bpe_keys(*b).contains(Seq::<u8>::empty()) || (forall|s: int, e: int|
            #[trigger] guard_slice(
                encode_utf8(text@),
                crate::vocab::string_views(allowed@),
                s,
                e,
            ) ==> !bpe_empty_piece(*b, encode_utf8(text@).subrange(s, e))),
    ensures
        r is Ok <==> bpe_encoding(*b, text@, string_set(allowed@)) is Some,
        r is Ok ==> r->Ok_0@ == bpe_encoding(*b, text@, string_set(allowed@)).unwrap(),
        r is Ok ==> all_known(bpe_table(*b), r->Ok_0@),
        (r is Ok && allowed@.len() == 0 && bpe_covers(*b, text@)) ==> token_bytes(
            bpe_table(*b),
            r->Ok_0@,
        ) == encode_utf8(text@),
{
    let refs: std::collections::HashSet<&str> = allowed.iter().map(|s| s.as_str()).collect();
    match b.encode(text, &refs) {
        Ok((ids, _last_piece_len)) => Ok(ids),
        Err(e) => Err(format!("{}", e)),
    }
}

/// Relies on `CoreBPE::decode`: it concatenates each id's decoder bytes —
/// failing exactly on an id that neither decoder resolves — and reads them
/// with `String::from_utf8`, failing exactly on invalid UTF-8.
#[verifier::external_body]
pub(crate) fn bpe_decode(b: &tiktoken_rs::CoreBPE, ids: &[u32]) -> (r: Result<String, String>)
    ensures
        r is Ok <==> (all_known(bpe_table(*b), ids@) && valid_utf8(
            token_bytes(bpe_table(*b), ids@),
        )),
        r is Ok ==> r->Ok_0@ == decode_utf8(token_bytes(bpe_table(*b), ids@)),
{
    match b.decode(ids) {
        Ok(s) => Ok(s),
        Err(e) => Err(format!("{}", e)),
    }
}

} // verus!
