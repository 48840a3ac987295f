//! The raw model file: plain text, one `<base64-token> <decimal-rank>` entry
//! per line. Lines are split on `'\n'` with one trailing `'\r'` stripped,
//! blank lines are skipped, and each remaining line yields a token byte
//! string and its rank. A token that appears twice keeps its last rank.

use vstd::prelude::*;
use crate::b64::{base64_decode, base64_decoded};
use crate::digits::{parse_u32, parse_u32_spec};
use crate::errors::{LineErrorKind, TokenizerError};

verus! {

/// Splitting on `'\n'`, byte by byte, with `cur` the line read so far.
pub open spec fn split_acc(bytes: Seq<u8>, cur: Seq<u8>) -> Seq<Seq<u8>>
    decreases bytes.len(),
{
    if bytes.len() == 0 {
        seq![cur]
    } else if bytes[0] == 10 {
        seq![cur] + split_acc(bytes.drop_first(), seq![])
    } else {
        split_acc(bytes.drop_first(), cur.push(bytes[0]))
    }
}

/// The lines of `bytes`: the pieces between `'\n'` bytes, including a final
/// (possibly empty) piece after the last `'\n'`.
pub open spec fn split_lines_spec(bytes: Seq<u8>) -> Seq<Seq<u8>> {
    split_acc(bytes, seq![])
}

/// The views of a vector of byte vectors.
pub open spec fn line_views(lines: Seq<Vec<u8>>) -> Seq<Seq<u8>> {
    lines.map_values(|l: Vec<u8>| l@)
}

/// Split `text` into its lines.
pub fn split_lines(text: &[u8]) -> (r: Vec<Vec<u8>>)
    ensures
        line_views(r@) == split_lines_spec(text@),
{
    let mut out: Vec<Vec<u8>> = Vec::new();
    let mut cur: Vec<u8> = Vec::new();
    let mut i: usize = 0;
    proof {
        assert(text@.skip(0) =~= text@);
        assert(line_views(out@) + split_acc(text@.skip(0), cur@) =~= split_lines_spec(text@));
    }
    while i < text.len()
        invariant
            0 <= i <= text.len(),
            split_lines_spec(text@) == line_views(out@) + split_acc(text@.skip(i as int), cur@),
        decreases text.len() - i,
    {
        let ghost pre_out = out@;
        let ghost pre_cur = cur@;
        let b = text[i];
        proof {
            let rest = text@.skip(i as int);
            assert(rest[0] == text@[i as int]);
            assert(rest.drop_first() =~= text@.skip(i + 1));
        }
        if b == 10 {
            out.push(cur);
            cur = Vec::new();
            proof {
                assert(line_views(out@) =~= line_views(pre_out).push(pre_cur));
                assert(line_views(pre_out) + (seq![pre_cur] + split_acc(
                    text@.skip(i + 1),
                    seq![],
                )) =~= line_views(out@) + split_acc(text@.skip(i + 1), cur@));
            }
        } else {
            cur.push(b);
        }
        i = i + 1;
    }
    proof {
        assert(text@.skip(text@.len() as int) =~= Seq::<u8>::empty());
    }
    out.push(cur);
    proof {
        assert(line_views(out@) =~= split_lines_spec(text@));
    }
    out
}

/// One trailing carriage return is dropped, as `str::lines` drops it.
pub open spec fn strip_cr(line: Seq<u8>) -> Seq<u8> {
    if line.len() > 0 && line.last() == 13 {
        line.drop_last()
    } else {
        line
    }
}

/// ASCII whitespace: space, tab, and the line-control bytes.
pub open spec fn is_ascii_space(b: u8) -> bool {
    b == 32 || (9 <= b <= 13)
}

/// A line of nothing but whitespace is skipped.
pub open spec fn is_blank(line: Seq<u8>) -> bool {
    forall|i: int| 0 <= i < line.len() ==> is_ascii_space(#[trigger] line[i])
}

/// The index of the first space at or after `from`, or the line's length.
pub open spec fn field_end(line: Seq<u8>, from: int) -> int
    decreases line.len() - from,
{
    if from < 0 || from >= line.len() {
        line.len() as int
    } else if line[from] == 32 {
        from
    } else {
        field_end(line, from + 1)
    }
}

pub proof fn lemma_field_end(line: Seq<u8>, from: int)
    requires
        0 <= from <= line.len(),
    ensures
        from <= field_end(line, from) <= line.len(),
        field_end(line, from) < line.len() ==> line[field_end(line, from)] == 32,
        forall|j: int| from <= j < field_end(line, from) ==> line[j] != 32,
    decreases line.len() - from,
{
    if from < line.len() && line[from] != 32 {
        lemma_field_end(line, from + 1);
    }
}

/// What one non-blank line yields: its decoded token and parsed rank, or why
/// it is rejected. The token field runs to the first space; the rank field
/// runs from there to the next space or the end of the line.
pub open spec fn parse_line_spec(line: Seq<u8>) -> Result<(Seq<u8>, u32), LineErrorKind> {
    let e1 = field_end(line, 0);
    match base64_decoded(line.take(e1)) {
        Option::None => Result::Err(LineErrorKind::BadBase64),
        Option::Some(tok) => {
            if e1 >= line.len() {
                Result::Err(LineErrorKind::MissingRank)
            } else {
                let e2 = field_end(line, e1 + 1);
                match parse_u32_spec(line.subrange(e1 + 1, e2)) {
                    Option::None => Result::Err(LineErrorKind::BadRank),
                    Option::Some(rank) => Result::Ok((tok, rank)),
                }
            }
        },
    }
}

/// Association pairs with `key` bound to `rank`: an existing entry for the
/// key is updated in place, a new key is appended.
pub open spec fn upsert<K>(pairs: Seq<(K, u32)>, key: K, rank: u32) -> Seq<(K, u32)>
    decreases pairs.len(),
{
    if pairs.len() == 0 {
        seq![(key, rank)]
    } else if pairs[0].0 == key {
        seq![(key, rank)] + pairs.drop_first()
    } else {
        seq![pairs[0]] + upsert(pairs.drop_first(), key, rank)
    }
}

/// Folding the lines of the model file, numbering them from `no`, into the
/// pairs accumulated so far, or the first error with its line number.
pub open spec fn parse_lines_spec(
    lines: Seq<Seq<u8>>,
    no: nat,
    acc: Seq<(Seq<u8>, u32)>,
) -> Result<Seq<(Seq<u8>, u32)>, (nat, LineErrorKind)>
    decreases lines.len(),
{
    if lines.len() == 0 {
        Result::Ok(acc)
    } else {
        let l = strip_cr(lines[0]);
        if is_blank(l) {
            parse_lines_spec(lines.drop_first(), no + 1, acc)
        } else {
            match parse_line_spec(l) {
                Result::Err(kind) => Result::Err((no, kind)),
                Result::Ok((tok, rank)) => parse_lines_spec(
                    lines.drop_first(),
                    no + 1,
                    upsert(acc, tok, rank),
                ),
            }
        }
    }
}

/// The encoder pairs of a whole model file, or its first error.
pub open spec fn model_pairs_spec(text: Seq<u8>) -> Result<
    Seq<(Seq<u8>, u32)>,
    (nat, LineErrorKind),
> {
    parse_lines_spec(split_lines_spec(text), 1, seq![])
}

/// True when every key occurs only once.
pub open spec fn keys_unique<K>(pairs: Seq<(K, u32)>) -> bool {
    forall|i: int, j: int|
        0 <= i < j < pairs.len() ==> (#[trigger] pairs[i]).0 != (#[trigger] pairs[j]).0
}

/// True when some pair carries the key.
pub open spec fn has_key<K>(pairs: Seq<(K, u32)>, k: K) -> bool {
    exists|i: int| 0 <= i < pairs.len() && (#[trigger] pairs[i]).0 == k
}

/// Upsert binds exactly the old keys plus the new one.
pub proof fn lemma_upsert_has_key<K>(pairs: Seq<(K, u32)>, key: K, rank: u32)
    ensures
        forall|k: K|
            #[trigger] has_key(upsert(pairs, key, rank), k) <==> (k == key || has_key(pairs, k)),
    decreases pairs.len(),
{
    let r = upsert(pairs, key, rank);
    if pairs.len() == 0 {
        assert forall|k: K| #[trigger] has_key(r, k) <==> (k == key || has_key(pairs, k)) by {
            if k == key {
                assert(r[0].0 == k);
            }
        }
    } else if pairs[0].0 == key {
        assert(forall|i: int| 1 <= i < r.len() ==> r[i] == pairs[i]);
        assert forall|k: K| #[trigger] has_key(r, k) <==> (k == key || has_key(pairs, k)) by {
            if has_key(r, k) {
                let i = choose|i: int| 0 <= i < r.len() && (#[trigger] r[i]).0 == k;
                if i > 0 {
                    assert(pairs[i].0 == k);
                }
            }
            if k == key {
                assert(r[0].0 == k);
            } else if has_key(pairs, k) {
                let i = choose|i: int| 0 <= i < pairs.len() && (#[trigger] pairs[i]).0 == k;
                assert(i != 0);
                assert(r[i].0 == k);
            }
        }
    } else {
        let rest = pairs.drop_first();
        assert(forall|i: int| 0 <= i < rest.len() ==> rest[i] == pairs[i + 1]);
        lemma_upsert_has_key(rest, key, rank);
        let ru = upsert(rest, key, rank);
        assert(r =~= seq![pairs[0]] + ru);
        assert forall|k: K| #[trigger] has_key(r, k) <==> (k == key || has_key(pairs, k)) by {
            if has_key(r, k) {
                let i = choose|i: int| 0 <= i < r.len() && (#[trigger] r[i]).0 == k;
                if i == 0 {
                    assert(pairs[0].0 == k);
                } else {
                    assert(ru[i - 1].0 == k);
                    assert(has_key(ru, k));
                    if k != key {
                        let m = choose|m: int| 0 <= m < rest.len() && (#[trigger] rest[m]).0 == k;
                        assert(pairs[m + 1].0 == k);
                    }
                }
            }
            if k == key {
                assert(has_key(ru, k));
                let m = choose|m: int| 0 <= m < ru.len() && (#[trigger] ru[m]).0 == k;
                assert(r[m + 1].0 == k);
            } else if has_key(pairs, k) {
                let i = choose|i: int| 0 <= i < pairs.len() && (#[trigger] pairs[i]).0 == k;
                if i == 0 {
                    assert(r[0].0 == k);
                } else {
                    assert(rest[i - 1].0 == k);
                    assert(has_key(rest, k));
                    assert(has_key(ru, k));
                    let m = choose|m: int| 0 <= m < ru.len() && (#[trigger] ru[m]).0 == k;
                    assert(r[m + 1].0 == k);
                }
            }
        }
    }
}

pub proof fn lemma_upsert_keys_unique<K>(pairs: Seq<(K, u32)>, key: K, rank: u32)
    requires
        keys_unique(pairs),
    ensures
        keys_unique(upsert(pairs, key, rank)),
        forall|k: K|
            #[trigger] has_key(upsert(pairs, key, rank), k) <==> (k == key || has_key(pairs, k)),
    decreases pairs.len(),
{
    if pairs.len() == 0 {
        let r = upsert(pairs, key, rank);
        assert forall|k: K| #[trigger] has_key(r, k) <==> (k == key || has_key(pairs, k)) by {
            if k == key {
                assert(r[0].0 == k);
            }
        }
    } else if pairs[0].0 == key {
        let r = upsert(pairs, key, rank);
        assert(forall|i: int| 1 <= i < r.len() ==> r[i] == pairs[i]);
        assert forall|k: K| #[trigger] has_key(r, k) <==> (k == key || has_key(pairs, k)) by {
            if has_key(r, k) {
                let i = choose|i: int| 0 <= i < r.len() && (#[trigger] r[i]).0 == k;
                if i == 0 {
                } else {
                    assert(pairs[i].0 == k);
                }
            }
            if k == key {
                assert(r[0].0 == k);
            } else if has_key(pairs, k) {
                let i = choose|i: int| 0 <= i < pairs.len() && (#[trigger] pairs[i]).0 == k;
                assert(i != 0);
                assert(r[i].0 == k);
            }
        }
    } else {
        let rest = pairs.drop_first();
        assert(keys_unique(rest)) by {
            assert(forall|i: int| 0 <= i < rest.len() ==> rest[i] == pairs[i + 1]);
        }
        lemma_upsert_keys_unique(rest, key, rank);
        let r = upsert(pairs, key, rank);
        let ru = upsert(rest, key, rank);
        assert(r =~= seq![pairs[0]] + ru);
        assert forall|i: int, j: int| 0 <= i < j < r.len() implies (#[trigger] r[i]).0 != (
        #[trigger] r[j]).0 by {
            if i == 0 {
                assert(r[j] == ru[j - 1]);
                assert(has_key(ru, ru[j - 1].0));
                assert(ru[j - 1].0 == key || has_key(rest, ru[j - 1].0));
                if ru[j - 1].0 != key {
                    let m = choose|m: int|
                        0 <= m < rest.len() && (#[trigger] rest[m]).0 == ru[j - 1].0;
                    assert(pairs[m + 1].0 == ru[j - 1].0);
                }
            } else {
                assert(r[i] == ru[i - 1] && r[j] == ru[j - 1]);
            }
        }
        assert forall|k: K| #[trigger] has_key(r, k) <==> (k == key || has_key(pairs, k)) by {
            if has_key(r, k) {
                let i = choose|i: int| 0 <= i < r.len() && (#[trigger] r[i]).0 == k;
                if i == 0 {
                    assert(pairs[0].0 == k);
                } else {
                    assert(has_key(ru, k));
                    if k != key {
                        let m = choose|m: int|
                            0 <= m < rest.len() && (#[trigger] rest[m]).0 == k;
                        assert(pairs[m + 1].0 == k);
                    }
                }
            }
            if k == key {
                assert(has_key(ru, k));
                let m = choose|m: int| 0 <= m < ru.len() && (#[trigger] ru[m]).0 == k;
                assert(r[m + 1].0 == k);
            } else if has_key(pairs, k) {
                let i = choose|i: int| 0 <= i < pairs.len() && (#[trigger] pairs[i]).0 == k;
                if i == 0 {
                    assert(r[0].0 == k);
                } else {
                    assert(rest[i - 1].0 == k);
                    assert(has_key(rest, k));
                    assert(has_key(ru, k));
                    let m = choose|m: int| 0 <= m < ru.len() && (#[trigger] ru[m]).0 == k;
                    assert(r[m + 1].0 == k);
                }
            }
        }
    }
}

/// Find the index of `key` among the pairs, if present.
fn find_key(pairs: &Vec<(Vec<u8>, u32)>, key: &Vec<u8>) -> (r: Option<usize>)
    ensures
        r is Some ==> 0 <= r.unwrap() < pairs.len() && pairs@[r.unwrap() as int].0@ == key@,
        r is Some ==> forall|j: int| 0 <= j < r.unwrap() ==> (#[trigger] pairs@[j]).0@ != key@,
        r is None ==> forall|i: int| 0 <= i < pairs@.len() ==> (#[trigger] pairs@[i]).0@ != key@,
{
    let mut i: usize = 0;
    while i < pairs.len()
        invariant
            0 <= i <= pairs@.len(),
            forall|j: int| 0 <= j < i ==> (#[trigger] pairs@[j]).0@ != key@,
        decreases pairs@.len() - i,
    {
        if vecs_equal(&pairs[i].0, key) {
            return Some(i);
        }
        i = i + 1;
    }
    None
}

/// Byte-vector equality.
fn vecs_equal(a: &Vec<u8>, b: &Vec<u8>) -> (r: bool)
    ensures
        r <==> a@ == b@,
{
    if a.len() != b.len() {
        return false;
    }
    let mut i: usize = 0;
    while i < a.len()
        invariant
            0 <= i <= a@.len(),
            a@.len() == b@.len(),
            forall|j: int| 0 <= j < i ==> a@[j] == b@[j],
        decreases a@.len() - i,
    {
        if a[i] != b[i] {
            return false;
        }
        i = i + 1;
    }
    proof {
        assert(a@ =~= b@);
    }
    true
}

/// The views of a vector of pairs.
pub open spec fn pair_views(pairs: Seq<(Vec<u8>, u32)>) -> Seq<(Seq<u8>, u32)> {
    pairs.map_values(|p: (Vec<u8>, u32)| (p.0@, p.1))
}

/// Insert `key -> rank`, updating the pair that already carries the key if
/// there is one.
fn upsert_pair(pairs: &mut Vec<(Vec<u8>, u32)>, key: Vec<u8>, rank: u32)
    ensures
        pair_views(final(pairs)@) == upsert(pair_views(old(pairs)@), key@, rank),
{
    let found = find_key(pairs, &key);
    match found {
        Some(i) => {
            let ghost pre = pair_views(pairs@);
            pairs.set(i, (key, rank));
            proof {
                assert(forall|j: int| 0 <= j < i ==> (#[trigger] pre[j]).0 != key@);
                lemma_upsert_at(pre, key@, rank, i as int);
                assert(pair_views(pairs@) =~= pre.update(i as int, (key@, rank)));
            }
        },
        None => {
            let ghost pre = pair_views(pairs@);
            pairs.push((key, rank));
            proof {
                assert(forall|j: int| 0 <= j < pre.len() ==> (#[trigger] pre[j]).0 != key@);
                lemma_upsert_append(pre, key@, rank);
                assert(pair_views(pairs@) =~= pre.push((key@, rank)));
            }
        },
    }
}

/// Where the key sits at index `i` (first occurrence), `upsert` updates in
/// place.
pub proof fn lemma_upsert_at<K>(pairs: Seq<(K, u32)>, key: K, rank: u32, i: int)
    requires
        0 <= i < pairs.len(),
        pairs[i].0 == key,
        forall|j: int| 0 <= j < i ==> (#[trigger] pairs[j]).0 != key,
    ensures
        upsert(pairs, key, rank) == pairs.update(i, (key, rank)),
    decreases pairs.len(),
{
    if i == 0 {
        assert(upsert(pairs, key, rank) =~= pairs.update(0, (key, rank)));
    } else {
        let rest = pairs.drop_first();
        assert(forall|j: int| 0 <= j < rest.len() ==> rest[j] == pairs[j + 1]);
        lemma_upsert_at(rest, key, rank, i - 1);
        assert(upsert(pairs, key, rank) =~= pairs.update(i, (key, rank)));
    }
}

/// Where the key is absent, `upsert` appends.
pub proof fn lemma_upsert_append<K>(pairs: Seq<(K, u32)>, key: K, rank: u32)
    requires
        forall|j: int| 0 <= j < pairs.len() ==> (#[trigger] pairs[j]).0 != key,
    ensures
        upsert(pairs, key, rank) == pairs.push((key, rank)),
    decreases pairs.len(),
{
    if pairs.len() == 0 {
        assert(upsert(pairs, key, rank) =~= pairs.push((key, rank)));
    } else {
        let rest = pairs.drop_first();
        assert(forall|j: int| 0 <= j < rest.len() ==> rest[j] == pairs[j + 1]);
        lemma_upsert_append(rest, key, rank);
        assert(upsert(pairs, key, rank) =~= pairs.push((key, rank)));
    }
}

/// Whether every byte of the line is whitespace.
fn line_is_blank(line: &Vec<u8>) -> (r: bool)
    ensures
        r == is_blank(line@),
{
    let mut i: usize = 0;
    while i < line.len()
        invariant
            0 <= i <= line@.len(),
            forall|j: int| 0 <= j < i ==> is_ascii_space(#[trigger] line@[j]),
        decreases line@.len() - i,
    {
        let b = line[i];
        if !(b == 32 || (9 <= b && b <= 13)) {
            assert(!is_ascii_space(line@[i as int]));
            return false;
        }
        i = i + 1;
    }
    true
}

/// The first space at or after `from`, or the line's length.
fn find_field_end(line: &Vec<u8>, from: usize) -> (r: usize)
    requires
        from <= line@.len(),
    ensures
        r == field_end(line@, from as int),
        from <= r <= line@.len(),
    decreases line@.len() - from,
{
    proof {
        lemma_field_end(line@, from as int);
    }
    if from >= line.len() {
        line.len()
    } else if line[from] == 32 {
        from
    } else {
        find_field_end(line, from + 1)
    }
}

/// Parse one non-blank, carriage-return-stripped line.
fn parse_line(line: &Vec<u8>) -> (r: Result<(Vec<u8>, u32), LineErrorKind>)
    ensures
        r is Ok ==> parse_line_spec(line@) == Result::<(Seq<u8>, u32), LineErrorKind>::Ok(
            (r.unwrap().0@, r.unwrap().1),
        ),
        r is Err ==> parse_line_spec(line@) == Result::<(Seq<u8>, u32), LineErrorKind>::Err(
            r.unwrap_err(),
        ),
{
    let e1 = find_field_end(line, 0);
    let mut token_text: Vec<u8> = Vec::new();
    let mut i: usize = 0;
    while i < e1
        invariant
            0 <= i <= e1 <= line@.len(),
            token_text@ =~= line@.take(e1 as int).take(i as int),
        decreases e1 - i,
    {
        token_text.push(line[i]);
        i = i + 1;
    }
    proof {
        assert(line@.take(e1 as int).take(e1 as int) =~= line@.take(e1 as int));
    }
    let tok = match base64_decode(token_text.as_slice()) {
        Option::None => {
            return Result::Err(LineErrorKind::BadBase64);
        },
        Option::Some(t) => t,
    };
    if e1 >= line.len() {
        return Result::Err(LineErrorKind::MissingRank);
    }
    let e2 = find_field_end(line, e1 + 1);
    let mut rank_text: Vec<u8> = Vec::new();
    let mut j: usize = e1 + 1;
    while j < e2
        invariant
            e1 + 1 <= j <= e2 <= line@.len(),
            rank_text@ =~= line@.subrange(e1 + 1, e2 as int).take(j - e1 - 1),
        decreases e2 - j,
    {
        rank_text.push(line[j]);
        j = j + 1;
    }
    proof {
        let sub = line@.subrange(e1 + 1, e2 as int);
        assert(sub.take(sub.len() as int) =~= sub);
    }
    match parse_u32(rank_text.as_slice()) {
        Option::None => Result::Err(LineErrorKind::BadRank),
        Option::Some(rank) => Result::Ok((tok, rank)),
    }
}

/// Parse a whole model file into its encoder pairs; keys are unique, the
/// last line for a token byte string wins, and the first malformed line is
/// reported with its 1-based number.
pub fn parse_model_file(text: &[u8]) -> (r: Result<Vec<(Vec<u8>, u32)>, TokenizerError>)
    ensures
        r is Ok ==> model_pairs_spec(text@) == Result::<
            Seq<(Seq<u8>, u32)>,
            (nat, LineErrorKind),
        >::Ok(pair_views(r.unwrap()@)),
        r is Ok ==> keys_unique(pair_views(r.unwrap()@)),
        r is Err ==> (r.unwrap_err() matches TokenizerError::Format { line, kind }
            && model_pairs_spec(text@) == Result::<
            Seq<(Seq<u8>, u32)>,
            (nat, LineErrorKind),
        >::Err((line as nat, kind))),
{
    let lines = split_lines(text);
    let mut acc: Vec<(Vec<u8>, u32)> = Vec::new();
    let mut i: usize = 0;
    proof {
        assert(line_views(lines@).skip(0) =~= line_views(lines@));
        assert(pair_views(acc@) =~= Seq::<(Seq<u8>, u32)>::empty());
    }
    while i < lines.len()
        invariant
            0 <= i <= lines@.len(),
            line_views(lines@) == split_lines_spec(text@),
            keys_unique(pair_views(acc@)),
            model_pairs_spec(text@) == parse_lines_spec(
                line_views(lines@).skip(i as int),
                (i + 1) as nat,
                pair_views(acc@),
            ),
        decreases lines@.len() - i,
    {
        proof {
            let rest = line_views(lines@).skip(i as int);
            assert(rest[0] == lines@[i as int]@);
            assert(rest.drop_first() =~= line_views(lines@).skip(i + 1));
        }
        let raw = &lines[i];
        let stripped: Vec<u8> = if raw.len() > 0 && raw[raw.len() - 1] == 13 {
            let mut c: Vec<u8> = Vec::new();
            let mut k: usize = 0;
            while k < raw.len() - 1
                invariant
                    raw@.len() > 0,
                    0 <= k <= raw@.len() - 1,
                    c@ =~= raw@.drop_last().take(k as int),
                decreases raw@.len() - 1 - k,
            {
                c.push(raw[k]);
                k = k + 1;
            }
            proof {
                assert(raw@.drop_last().take(raw@.len() - 1) =~= raw@.drop_last());
                assert(c@ =~= strip_cr(raw@));
            }
            c
        } else {
            let mut c: Vec<u8> = Vec::new();
            let mut k: usize = 0;
            while k < raw.len()
                invariant
                    0 <= k <= raw@.len(),
                    c@ =~= raw@.take(k as int),
                decreases raw@.len() - k,
            {
                c.push(raw[k]);
                k = k + 1;
            }
            proof {
                assert(raw@.take(raw@.len() as int) =~= raw@);
                assert(c@ =~= strip_cr(raw@));
            }
            c
        };
        if !line_is_blank(&stripped) {
            match parse_line(&stripped) {
                Result::Err(kind) => {
                    return Result::Err(TokenizerError::Format { line: i + 1, kind });
                },
                Result::Ok((tok, rank)) => {
                    proof {
                        lemma_upsert_keys_unique(pair_views(acc@), tok@, rank);
                    }
                    upsert_pair(&mut acc, tok, rank);
                },
            }
        }
        i = i + 1;
    }
    proof {
        assert(line_views(lines@).skip(lines@.len() as int) =~= Seq::<Seq<u8>>::empty());
    }
    Result::Ok(acc)
}

} // verus!
