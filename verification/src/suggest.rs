//! The similarity search engine: substring matches in catalog order when
//! any exist, otherwise every entry ranked by a boosted Jaro-Winkler
//! similarity, stably sorted best first.
//!
//! The similarity itself is computed by an outside crate as a double in
//! [0, 1]. This crate carries that value as its IEEE-754 bit pattern and
//! ranks by an exact fixed-point reading of it, scaled by 2^120; values
//! below 2^-68 are read as zero, a range the metric cannot produce (it
//! yields either exactly zero or at least the reciprocal of three times a
//! string's length).
use crate::text::{
    chars_of, contains_chars, contains_seq, ends_with_chars, ends_with_seq, starts_with_chars,
    starts_with_seq, to_upper, upper_of,
};
use vstd::arithmetic::mul::lemma_mul_upper_bound;
use vstd::arithmetic::power2::{
    lemma2_to64, lemma2_to64_rest, lemma_pow2_adds, lemma_pow2_strictly_increases, pow2,
};
use vstd::math::min;
use vstd::multiset::Multiset;
use vstd::prelude::*;
use vstd::seq_lib::lemma_multiset_commutative;

verus! {

/// Hard cap on the number of suggestions the similarity search ever returns.
pub const SUGGESTION_HARD_LIMIT: usize = 10;

/// The number of suggestion slots actually available for a caller-supplied
/// limit: the smaller of the limit and the hard cap.
pub fn effective_limit(limit: usize) -> (r: usize)
    ensures
        r == min(limit as int, SUGGESTION_HARD_LIMIT as int),
{
    if limit < SUGGESTION_HARD_LIMIT {
        limit
    } else {
        SUGGESTION_HARD_LIMIT
    }
}

/// The IEEE-754 bit pattern of the Jaro-Winkler similarity of two strings,
/// a value in [0, 1].
pub uninterp spec fn jw_bits_of(a: Seq<char>, b: Seq<char>) -> u64;

/// Relies on strsim::jaro_winkler: a similarity between 0.0 and 1.0 that
/// is a function of the two strings alone, returned as the IEEE-754 bit
/// pattern of the double. Bit patterns of nonnegative doubles are ordered
/// as the values are, so the pattern of a value in [0, 1] is at most that
/// of 1.0.
#[verifier::external_body]
fn jaro_winkler_bits(a: &str, b: &str) -> (r: u64)
    ensures
        r == jw_bits_of(a@, b@),
        r <= 0x3FF0_0000_0000_0000,
{
    strsim::jaro_winkler(a, b).to_bits()
}

/// The exponent field of a nonnegative double's bit pattern.
pub open spec fn f64_exp(bits: u64) -> u64 {
    bits / 0x10_0000_0000_0000
}

/// The fraction field of a nonnegative double's bit pattern.
pub open spec fn f64_frac(bits: u64) -> u64 {
    bits % 0x10_0000_0000_0000
}

/// The double behind the bit pattern, scaled by 2^120 and truncated toward
/// zero: exact for every normal value of at least 2^-68, zero below that.
pub open spec fn sim_fixed(bits: u64) -> int {
    if f64_exp(bits) < 955 {
        0
    } else {
        (0x10_0000_0000_0000 + f64_frac(bits) as int) * pow2((f64_exp(bits) - 955) as nat)
    }
}

/// The additive score boosts, in tenths: +3 when the entry starts with the
/// query, else +2 when it ends with it; and independently +1 when the
/// query has at least three characters and the entry contains the query
/// with its final character dropped.
pub open spec fn boost_tenths(uq: Seq<char>, ue: Seq<char>) -> int {
    (if starts_with_seq(ue, uq) {
        3int
    } else if ends_with_seq(ue, uq) {
        2int
    } else {
        0int
    }) + (if uq.len() >= 3 && contains_seq(ue, uq.subrange(0, uq.len() - 1)) {
        1int
    } else {
        0int
    })
}

/// A ranking score: the similarity plus the boost, both scaled by 2^120
/// (a boost of one tenth weighs 2^120, a similarity of 1.0 weighs
/// 10 * 2^120).
pub open spec fn score_fixed(bits: u64, boost: int) -> int {
    10 * sim_fixed(bits) + boost * pow2(120)
}

/// The score of a catalog entry against a query: both are uppercased, the
/// similarity of the pair is boosted by the prefix, suffix and
/// near-containment rules.
pub open spec fn entry_score(q: Seq<char>, e: Seq<char>) -> int {
    score_fixed(
        jw_bits_of(upper_of(q), upper_of(e)),
        boost_tenths(upper_of(q), upper_of(e)),
    )
}

/// Two raised to the given power.
fn pow2_u128(e: usize) -> (r: u128)
    requires
        e <= 123,
    ensures
        r as int == pow2(e as nat),
{
    let mut r: u128 = 1;
    let mut i: usize = 0;
    proof {
        lemma2_to64();
    }
    while i < e
        invariant
            i <= e,
            e <= 123,
            r as int == pow2(i as nat),
        decreases e - i,
    {
        proof {
            lemma2_to64();
            lemma2_to64_rest();
            lemma_pow2_adds(1, i as nat);
            assert(2 * (r as int) == pow2((i + 1) as nat));
            lemma_pow2_adds(63, 60);
            assert(pow2(123) == 0x8000000000000000 * 0x1000000000000000);
            if i + 1 < 123 {
                lemma_pow2_strictly_increases((i + 1) as nat, 123);
            }
            assert(pow2((i + 1) as nat) <= pow2(123));
        }
        r = r * 2;
        i = i + 1;
    }
    r
}

/// Read a similarity bit pattern as its exact fixed-point value.
fn sim_fixed_exec(bits: u64) -> (r: u128)
    requires
        bits <= 0x3FF0_0000_0000_0000,
    ensures
        r as int == sim_fixed(bits),
        r as int <= pow2(120),
{
    let exp: u64 = bits / 0x10_0000_0000_0000;
    let frac: u64 = bits % 0x10_0000_0000_0000;
    proof {
        lemma2_to64();
        lemma2_to64_rest();
        lemma_pow2_adds(60, 60);
        assert(pow2(120) == 0x1000000000000000 * 0x1000000000000000);
    }
    if exp < 955 {
        0
    } else {
        let m: u128 = (0x10_0000_0000_0000u64 + frac) as u128;
        let p = pow2_u128((exp - 955) as usize);
        proof {
            lemma_pow2_adds(52, 68);
            lemma_pow2_adds(53, 67);
            lemma_pow2_adds(4, 64);
            assert(pow2(68) == 0x10 * 0x10000000000000000);
            assert(pow2(67) == pow2(3) * pow2(64)) by {
                lemma_pow2_adds(3, 64);
            }
            if exp == 1023 {
                // the pattern of 1.0 exactly: the fraction must be zero
                assert(frac == 0);
                assert(m as int == pow2(52));
                assert((exp - 955) as nat == 68);
                assert((m * p) as int == pow2(52) * pow2(68));
            } else {
                assert(exp <= 1022);
                assert(m as int <= pow2(53));
                if exp - 955 < 67 {
                    lemma_pow2_strictly_increases((exp - 955) as nat, 67);
                }
                assert(p as int <= pow2(67));
                lemma_mul_upper_bound(m as int, pow2(53) as int, p as int, pow2(67) as int);
                assert((m as int) * (p as int) <= pow2(53) * pow2(67));
            }
        }
        m * p
    }
}

/// The score of an entry, computed exactly.
fn score_exec(bits: u64, boost: u8) -> (r: u128)
    requires
        bits <= 0x3FF0_0000_0000_0000,
        boost <= 4,
    ensures
        r as int == score_fixed(bits, boost as int),
{
    let s = sim_fixed_exec(bits);
    let p120 = pow2_u128(120);
    proof {
        lemma2_to64();
        lemma2_to64_rest();
        lemma_pow2_adds(60, 60);
        assert(pow2(120) == 0x1000000000000000 * 0x1000000000000000);
        assert((boost as int) * (p120 as int) <= 4 * pow2(120)) by {
            lemma_mul_upper_bound(boost as int, 4, p120 as int, pow2(120) as int);
        }
    }
    10 * s + (boost as u128) * p120
}

/// Copy the first `n` characters.
fn take_chars(v: &Vec<char>, n: usize) -> (r: Vec<char>)
    requires
        n <= v@.len(),
    ensures
        r@ == v@.subrange(0, n as int),
{
    let mut r: Vec<char> = Vec::new();
    let mut i: usize = 0;
    while i < n
        invariant
            i <= n,
            n <= v@.len(),
            r@ == v@.subrange(0, i as int),
        decreases n - i,
    {
        r.push(v[i]);
        i = i + 1;
        assert(r@ =~= v@.subrange(0, i as int));
    }
    r
}

/// Compute the boost for an uppercased query against an uppercased entry.
fn boost_exec(uq: &Vec<char>, ue: &Vec<char>) -> (r: u8)
    ensures
        r as int == boost_tenths(uq@, ue@),
        r <= 4,
{
    let mut b: u8 = 0;
    if starts_with_chars(ue, uq) {
        b = 3;
    } else if ends_with_chars(ue, uq) {
        b = 2;
    }
    if uq.len() >= 3 {
        let trimmed = take_chars(uq, uq.len() - 1);
        if contains_chars(ue, &trimmed) {
            b = b + 1;
        }
    }
    b
}

/// The substring test an entry must pass in the first phase: the
/// uppercased entry contains the uppercased query.
pub open spec fn substring_pred(q: Seq<char>) -> spec_fn(Seq<char>) -> bool {
    |e: Seq<char>| contains_seq(upper_of(e), upper_of(q))
}

/// The catalog entries that contain the query, both uppercased, in
/// catalog order.
pub open spec fn substring_matches(catalog: Seq<Seq<char>>, q: Seq<char>) -> Seq<Seq<char>> {
    catalog.filter(substring_pred(q))
}

/// Insert an entry into a ranked list: it goes behind every entry that
/// scores at least as high, so earlier equals stay first.
pub open spec fn insert_desc(s: Seq<Seq<char>>, q: Seq<char>, e: Seq<char>) -> Seq<Seq<char>>
    decreases s.len(),
{
    if s.len() == 0 {
        seq![e]
    } else if entry_score(q, s[0]) >= entry_score(q, e) {
        seq![s[0]] + insert_desc(s.drop_first(), q, e)
    } else {
        seq![e] + s
    }
}

/// The whole catalog ranked by score, best first, stably: entries with
/// equal scores keep their catalog order.
pub open spec fn rank_desc(catalog: Seq<Seq<char>>, q: Seq<char>) -> Seq<Seq<char>>
    decreases catalog.len(),
{
    if catalog.len() == 0 {
        Seq::empty()
    } else {
        insert_desc(rank_desc(catalog.drop_last(), q), q, catalog.last())
    }
}

/// What the similarity search returns: the substring matches in catalog
/// order when any exist, capped at the hard limit and ignoring the
/// caller's limit; otherwise the ranked catalog cut to the smaller of the
/// caller's limit and the hard limit.
pub open spec fn suggest_spec(catalog: Seq<Seq<char>>, q: Seq<char>, limit: int) -> Seq<Seq<char>> {
    let cap = SUGGESTION_HARD_LIMIT as int;
    let subs = substring_matches(catalog, q);
    if subs.len() > 0 {
        subs.take(min(subs.len() as int, cap))
    } else {
        rank_desc(catalog, q).take(min(min(limit, cap), catalog.len() as int))
    }
}

/// A cut of a filtered sequence is already settled by any prefix that
/// yields enough matches.
proof fn lemma_filter_take_prefix(
    s: Seq<Seq<char>>,
    pred: spec_fn(Seq<char>) -> bool,
    i: int,
    n: int,
)
    requires
        0 <= i <= s.len(),
        0 <= n <= s.take(i).filter(pred).len(),
    ensures
        s.filter(pred).take(n) == s.take(i).filter(pred).take(n),
        s.filter(pred).len() >= s.take(i).filter(pred).len(),
{
    Seq::filter_distributes_over_add(s.take(i), s.skip(i), pred);
    assert(s.take(i) + s.skip(i) =~= s);
    assert(s.filter(pred) == s.take(i).filter(pred) + s.skip(i).filter(pred));
    assert(s.filter(pred).take(n) =~= s.take(i).filter(pred).take(n));
}

/// Where an entry lands in a ranked list: behind the entries scoring at
/// least as high, ahead of the rest.
proof fn lemma_insert_desc_at(s: Seq<Seq<char>>, q: Seq<char>, e: Seq<char>, p: int)
    requires
        0 <= p <= s.len(),
        forall|i: int| 0 <= i < p ==> entry_score(q, #[trigger] s[i]) >= entry_score(q, e),
        p < s.len() ==> entry_score(q, s[p]) < entry_score(q, e),
    ensures
        insert_desc(s, q, e) == s.take(p) + seq![e] + s.skip(p),
    decreases s.len(),
{
    if s.len() == 0 {
        assert(insert_desc(s, q, e) =~= s.take(0) + seq![e] + s.skip(0));
    } else if p == 0 {
        assert(entry_score(q, s[0]) < entry_score(q, e));
        assert(seq![e] + s =~= s.take(0) + seq![e] + s.skip(0));
    } else {
        assert(entry_score(q, s[0]) >= entry_score(q, e));
        let rest = s.drop_first();
        assert forall|i: int| 0 <= i < p - 1 implies entry_score(q, #[trigger] rest[i])
            >= entry_score(q, e) by {
            assert(rest[i] == s[i + 1]);
        }
        if p - 1 < rest.len() {
            assert(rest[p - 1] == s[p]);
        }
        lemma_insert_desc_at(rest, q, e, p - 1);
        assert(seq![s[0]] + (rest.take(p - 1) + seq![e] + rest.skip(p - 1)) =~= s.take(p)
            + seq![e] + s.skip(p));
    }
}

/// Inserting into a ranked list adds exactly that entry.
proof fn lemma_insert_desc_multiset(s: Seq<Seq<char>>, q: Seq<char>, e: Seq<char>)
    ensures
        insert_desc(s, q, e).to_multiset() == s.to_multiset().insert(e),
    decreases s.len(),
{
    broadcast use vstd::seq_lib::group_to_multiset_ensures;
    broadcast use vstd::multiset::group_multiset_axioms;

    if s.len() == 0 {
        assert(seq![e] =~= Seq::<Seq<char>>::empty().push(e));
        assert(insert_desc(s, q, e).to_multiset() =~= s.to_multiset().insert(e));
    } else if entry_score(q, s[0]) >= entry_score(q, e) {
        let rest = s.drop_first();
        lemma_insert_desc_multiset(rest, q, e);
        lemma_multiset_commutative(seq![s[0]], insert_desc(rest, q, e));
        lemma_multiset_commutative(seq![s[0]], rest);
        assert(seq![s[0]] + rest =~= s);
        assert(seq![s[0]].to_multiset() =~= Multiset::<Seq<char>>::empty().insert(s[0])) by {
            assert(seq![s[0]] =~= Seq::<Seq<char>>::empty().push(s[0]));
        }
        assert(insert_desc(s, q, e).to_multiset() =~= s.to_multiset().insert(e));
    } else {
        lemma_multiset_commutative(seq![e], s);
        assert(seq![e].to_multiset() =~= Multiset::<Seq<char>>::empty().insert(e)) by {
            assert(seq![e] =~= Seq::<Seq<char>>::empty().push(e));
        }
        assert(insert_desc(s, q, e).to_multiset() =~= s.to_multiset().insert(e));
    }
}

/// Law: ranking permutes the catalog; every entry appears exactly as
/// often as it did, no more and no fewer.
pub proof fn lemma_rank_desc_permutes(catalog: Seq<Seq<char>>, q: Seq<char>)
    ensures
        rank_desc(catalog, q).to_multiset() == catalog.to_multiset(),
    decreases catalog.len(),
{
    broadcast use vstd::seq_lib::group_to_multiset_ensures;

    if catalog.len() == 0 {
    } else {
        lemma_rank_desc_permutes(catalog.drop_last(), q);
        lemma_insert_desc_multiset(rank_desc(catalog.drop_last(), q), q, catalog.last());
        assert(catalog.drop_last().push(catalog.last()) =~= catalog);
    }
}

/// Scores never increase along the sequence: best match first.
pub open spec fn scores_descending(s: Seq<Seq<char>>, q: Seq<char>) -> bool {
    forall|i: int, j: int|
        0 <= i < j < s.len() ==> entry_score(q, #[trigger] s[i]) >= entry_score(q, #[trigger] s[j])
}

proof fn lemma_insert_desc_sorted(s: Seq<Seq<char>>, q: Seq<char>, e: Seq<char>)
    requires
        scores_descending(s, q),
    ensures
        scores_descending(insert_desc(s, q, e), q),
    decreases s.len(),
{
    broadcast use vstd::seq_lib::group_to_multiset_ensures;

    if s.len() == 0 {
    } else if entry_score(q, s[0]) >= entry_score(q, e) {
        let rest = s.drop_first();
        assert forall|i: int, j: int| 0 <= i < j < rest.len() implies entry_score(
            q,
            #[trigger] rest[i],
        ) >= entry_score(q, #[trigger] rest[j]) by {
            assert(rest[i] == s[i + 1]);
            assert(rest[j] == s[j + 1]);
        }
        lemma_insert_desc_sorted(rest, q, e);
        lemma_insert_desc_multiset(rest, q, e);
        let res = insert_desc(s, q, e);
        let ins = insert_desc(rest, q, e);
        assert(res == seq![s[0]] + ins);
        assert forall|i: int, j: int| 0 <= i < j < res.len() implies entry_score(
            q,
            #[trigger] res[i],
        ) >= entry_score(q, #[trigger] res[j]) by {
            if i == 0 {
                assert(res[j] == ins[j - 1]);
                assert(ins.contains(ins[j - 1]));
                assert(ins.to_multiset().count(ins[j - 1]) > 0);
                let x = ins[j - 1];
                if x == e {
                    assert(entry_score(q, s[0]) >= entry_score(q, x));
                } else {
                    assert(rest.to_multiset().count(x) > 0);
                    assert(rest.contains(x));
                    let t = choose|t: int| 0 <= t < rest.len() && rest[t] == x;
                    assert(entry_score(q, s[0]) >= entry_score(q, s[t + 1]));
                }
            } else {
                assert(res[i] == ins[i - 1]);
                assert(res[j] == ins[j - 1]);
            }
        }
    } else {
        let res = insert_desc(s, q, e);
        assert(res == seq![e] + s);
        assert forall|i: int, j: int| 0 <= i < j < res.len() implies entry_score(
            q,
            #[trigger] res[i],
        ) >= entry_score(q, #[trigger] res[j]) by {
            if i == 0 {
                assert(res[j] == s[j - 1]);
                if j - 1 > 0 {
                    assert(entry_score(q, s[0]) >= entry_score(q, s[j - 1]));
                }
            } else {
                assert(res[i] == s[i - 1]);
                assert(res[j] == s[j - 1]);
            }
        }
    }
}

/// Law: the ranking is ordered by score, best match first.
pub proof fn lemma_rank_desc_sorted(catalog: Seq<Seq<char>>, q: Seq<char>)
    ensures
        scores_descending(rank_desc(catalog, q), q),
    decreases catalog.len(),
{
    if catalog.len() == 0 {
    } else {
        lemma_rank_desc_sorted(catalog.drop_last(), q);
        lemma_insert_desc_sorted(rank_desc(catalog.drop_last(), q), q, catalog.last());
    }
}

/// Everything a filter keeps was already there.
proof fn lemma_filter_within(s: Seq<Seq<char>>, pred: spec_fn(Seq<char>) -> bool)
    ensures
        forall|t: int|
            0 <= t < s.filter(pred).len() ==> s.contains(#[trigger] s.filter(pred)[t]),
    decreases s.len(),
{
    broadcast use vstd::seq_lib::group_filter_ensures;

    if s.len() == 0 {
    } else {
        let dl = s.drop_last();
        lemma_filter_within(dl, pred);
        dl.lemma_filter_push(s.last(), pred);
        assert(dl.push(s.last()) =~= s);
        assert forall|t: int|
            0 <= t < s.filter(pred).len() implies s.contains(#[trigger] s.filter(pred)[t]) by {
            if t < dl.filter(pred).len() {
                assert(s.filter(pred)[t] == dl.filter(pred)[t]);
                assert(dl.contains(dl.filter(pred)[t]));
                let w = choose|w: int| 0 <= w < dl.len() && dl[w] == dl.filter(pred)[t];
                assert(s[w] == dl[w]);
            } else {
                assert(s.filter(pred)[t] == s.last());
            }
        }
    }
}

/// Law: every suggestion is a catalog entry.
pub proof fn lemma_suggest_spec_within_catalog(catalog: Seq<Seq<char>>, q: Seq<char>, limit: int)
    requires
        0 <= limit,
    ensures
        forall|t: int|
            0 <= t < suggest_spec(catalog, q, limit).len() ==> catalog.contains(
                #[trigger] suggest_spec(catalog, q, limit)[t],
            ),
{
    broadcast use vstd::seq_lib::group_to_multiset_ensures;

    let r = suggest_spec(catalog, q, limit);
    let subs = substring_matches(catalog, q);
    if subs.len() > 0 {
        lemma_filter_within(catalog, substring_pred(q));
        assert forall|t: int| 0 <= t < r.len() implies catalog.contains(#[trigger] r[t]) by {
            assert(r[t] == subs[t]);
        }
    } else {
        lemma_rank_desc_permutes(catalog, q);
        let ranked = rank_desc(catalog, q);
        assert(ranked.to_multiset().len() == ranked.len());
        assert(catalog.to_multiset().len() == catalog.len());
        assert(ranked.len() == catalog.len());
        let k = min(min(limit, SUGGESTION_HARD_LIMIT as int), catalog.len() as int);
        assert(0 <= k <= ranked.len());
        assert(r.len() == k);
        assert forall|t: int| 0 <= t < r.len() implies catalog.contains(#[trigger] r[t]) by {
            assert(r[t] == ranked[t]);
            assert(ranked.contains(ranked[t]));
            assert(ranked.to_multiset().count(ranked[t]) > 0);
            assert(catalog.to_multiset().count(ranked[t]) > 0);
        }
    }
}

/// One scored catalog entry awaiting ranking.
struct Cand {
    entry: String,
    score: u128,
}

/// The entries behind a scored list.
spec fn cand_entries(s: Seq<Cand>) -> Seq<Seq<char>> {
    s.map_values(|c: Cand| c.entry@)
}

/// Every stored score is the entry's score against the query.
spec fn cands_scored(s: Seq<Cand>, q: Seq<char>) -> bool {
    forall|i: int| 0 <= i < s.len() ==> (#[trigger] s[i]).score as int == entry_score(q, s[i].entry@)
}

/// Suggest catalog entries resembling the query. When any entry contains
/// the query (case-insensitively), the first such entries are returned in
/// catalog order, at most ten, even if fewer than `limit`; otherwise every
/// entry is ranked by boosted similarity, best first, ties in catalog
/// order, and the best `limit` (at most ten) are returned.
#[verifier::loop_isolation(false)]
#[verifier::rlimit(60)]
pub fn suggest(query: &str, catalog: &Vec<String>, limit: usize) -> (r: Vec<String>)
    ensures
        r.deep_view() == suggest_spec(catalog.deep_view(), query@, limit as int),
        r@.len() <= SUGGESTION_HARD_LIMIT,
{
    broadcast use vstd::seq_lib::group_filter_ensures;

    let ghost cat = catalog.deep_view();
    let ghost q = query@;
    let uq_string = to_upper(query);
    let uq_chars = chars_of(uq_string.as_str());

    // substring phase: collect entries containing the query, up to ten
    let mut subs: Vec<String> = Vec::new();
    proof {
        assert(cat.take(0) =~= Seq::<Seq<char>>::empty());
        assert(substring_matches(cat.take(0), q).len() <= 0);
        assert(subs.deep_view() =~= substring_matches(cat.take(0), q));
    }
    let mut i: usize = 0;
    while i < catalog.len() && subs.len() < SUGGESTION_HARD_LIMIT
        invariant
            i <= cat.len(),
            subs@.len() <= SUGGESTION_HARD_LIMIT,
            subs.deep_view() == substring_matches(cat.take(i as int), q),
        decreases cat.len() - i,
    {
        let ue_string = to_upper(catalog[i].as_str());
        let ue_chars = chars_of(ue_string.as_str());
        let ghost pre = subs.deep_view();
        let hit = contains_chars(&ue_chars, &uq_chars);
        proof {
            assert(substring_pred(q)(cat[i as int]) == hit);
        }
        if hit {
            subs.push(catalog[i].clone());
            proof {
                assert(subs.deep_view() =~= pre.push(cat[i as int]));
            }
        }
        proof {
            assert(cat.take(i + 1) =~= cat.take(i as int).push(cat[i as int]));
            cat.take(i as int).lemma_filter_push(cat[i as int], substring_pred(q));
        }
        i = i + 1;
    }
    if subs.len() > 0 {
        proof {
            let full = substring_matches(cat, q);
            if i < catalog.len() {
                // ten matches found early: they are the first ten overall
                lemma_filter_take_prefix(cat, substring_pred(q), i as int, 10);
                assert(full.take(10) == substring_matches(cat.take(i as int), q).take(10));
                assert(substring_matches(cat.take(i as int), q).take(10) =~= subs.deep_view());
                assert(full.len() >= 10);
            } else {
                assert(cat.take(i as int) =~= cat);
                assert(full.take(full.len() as int) =~= full);
            }
        }
        return subs;
    }
    proof {
        assert(cat.take(i as int) =~= cat);
        assert(substring_matches(cat, q).len() == 0);
    }

    // fuzzy phase: score every entry
    let mut cands: Vec<Cand> = Vec::new();
    let mut t: usize = 0;
    while t < catalog.len()
        invariant
            t <= cat.len(),
            cands@.len() == t,
            forall|u: int| 0 <= u < t ==> (#[trigger] cands@[u]).entry@ == cat[u],
            cands_scored(cands@, q),
        decreases cat.len() - t,
    {
        let ue_string = to_upper(catalog[t].as_str());
        let ue_chars = chars_of(ue_string.as_str());
        let b = boost_exec(&uq_chars, &ue_chars);
        let bits = jaro_winkler_bits(uq_string.as_str(), ue_string.as_str());
        let sc = score_exec(bits, b);
        cands.push(Cand { entry: catalog[t].clone(), score: sc });
        t = t + 1;
    }

    // rank stably, best first
    let mut ranked: Vec<Cand> = Vec::new();
    proof {
        assert(cat.take(0) =~= Seq::<Seq<char>>::empty());
        assert(cand_entries(ranked@) =~= rank_desc(cat.take(0), q));
    }
    let mut t2: usize = 0;
    while t2 < cands.len()
        invariant
            t2 <= cands@.len(),
            ranked@.len() == t2,
            cand_entries(ranked@) == rank_desc(cat.take(t2 as int), q),
            cands_scored(ranked@, q),
        decreases cands@.len() - t2,
    {
        let c = Cand { entry: cands[t2].entry.clone(), score: cands[t2].score };
        proof {
            assert(c.entry@ == cat[t2 as int]);
            assert(c.score as int == entry_score(q, c.entry@));
        }
        let mut p: usize = 0;
        while p < ranked.len() && ranked[p].score >= c.score
            invariant
                p <= ranked@.len(),
                forall|u: int| 0 <= u < p ==> (#[trigger] ranked@[u]).score >= c.score,
            decreases ranked@.len() - p,
        {
            p = p + 1;
        }
        let ghost rpre = ranked@;
        proof {
            assert forall|u: int| 0 <= u < p implies entry_score(
                q,
                #[trigger] cand_entries(rpre)[u],
            ) >= entry_score(q, c.entry@) by {
                assert(cand_entries(rpre)[u] == rpre[u].entry@);
            }
            if (p as int) < rpre.len() {
                assert(cand_entries(rpre)[p as int] == rpre[p as int].entry@);
            }
            lemma_insert_desc_at(cand_entries(rpre), q, c.entry@, p as int);
        }
        ranked.insert(p, c);
        proof {
            assert(cat.take(t2 + 1).drop_last() =~= cat.take(t2 as int));
            assert(cat.take(t2 + 1).last() == cat[t2 as int]);
            assert(cand_entries(ranked@) =~= cand_entries(rpre).take(p as int) + seq![c.entry@]
                + cand_entries(rpre).skip(p as int)) by {
                assert(ranked@ =~= rpre.insert(p as int, c));
                assert forall|u: int| 0 <= u < ranked@.len() implies cand_entries(ranked@)[u]
                    == (cand_entries(rpre).take(p as int) + seq![c.entry@] + cand_entries(
                    rpre,
                ).skip(p as int))[u] by {
                    if u < p {
                        assert(ranked@[u] == rpre[u]);
                    } else if u > p {
                        assert(ranked@[u] == rpre[u - 1]);
                    }
                }
            }
            assert(cand_entries(ranked@) == rank_desc(cat.take(t2 + 1), q));
            assert forall|u: int| 0 <= u < ranked@.len() implies (#[trigger] ranked@[u]).score
                as int == entry_score(q, ranked@[u].entry@) by {
                if u < p {
                    assert(ranked@[u] == rpre[u]);
                } else if u > p {
                    assert(ranked@[u] == rpre[u - 1]);
                }
            }
        }
        t2 = t2 + 1;
    }
    proof {
        assert(cat.take(cat.len() as int) =~= cat);
    }

    // cut to the smaller of the caller's limit and the hard cap
    let cap0 = effective_limit(limit);
    let cap = if cap0 < ranked.len() {
        cap0
    } else {
        ranked.len()
    };
    let mut out: Vec<String> = Vec::new();
    let mut u: usize = 0;
    while u < cap
        invariant
            u <= cap,
            cap <= ranked@.len(),
            out@.len() == u,
            forall|w: int| 0 <= w < u ==> out.deep_view()[w] == cand_entries(ranked@)[w],
        decreases cap - u,
    {
        let ghost opre = out.deep_view();
        out.push(ranked[u].entry.clone());
        proof {
            assert(out.deep_view() =~= opre.push(ranked@[u as int].entry@));
            assert(cand_entries(ranked@)[u as int] == ranked@[u as int].entry@);
        }
        u = u + 1;
    }
    proof {
        assert(out.deep_view() =~= rank_desc(cat, q).take(
            min(min(limit as int, 10), cat.len() as int),
        ));
    }
    out
}

} // verus!
