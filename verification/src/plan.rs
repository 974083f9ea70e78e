//! The selection planner: catalog membership and availability checks, and
//! the planning of a selection from explicit requests plus a uniform
//! random draw, reporting exactly which failure or warning applies.
use crate::text::{to_upper, upper_of};
use vstd::prelude::*;
use vstd::math::min;
use vstd::multiset::Multiset;
use vstd::seq_lib::group_to_multiset_ensures;
use vstd::seq_lib::lemma_multiset_commutative;

verus! {

/// A fatal planning failure.
#[derive(Debug)]
pub enum PlanError {
    /// An explicitly requested symbol was not available; planning stops at
    /// the first such symbol.
    UnknownAsset(String),
    /// Neither the explicit list nor the random draw selected anything.
    NoAssetsSelected,
}

/// A successful plan: the selected symbols, and whether the random draw
/// was cut short because the request exceeded the remaining pool.
pub struct PlanOutcome {
    pub selected: Vec<String>,
    pub insufficient_random_pool: bool,
}

/// Walk the explicit requests in order against the remaining pool: stop at
/// the first symbol with no remaining occurrence, otherwise use one
/// occurrence up per request and return what is left.
pub open spec fn validate_explicit(
    working: Multiset<Seq<char>>,
    expl: Seq<Seq<char>>,
) -> Result<Multiset<Seq<char>>, Seq<char>>
    decreases expl.len(),
{
    if expl.len() == 0 {
        Ok(working)
    } else if working.count(expl[0]) == 0 {
        Err(expl[0])
    } else {
        validate_explicit(working.remove(expl[0]), expl.drop_first())
    }
}

/// The number of random picks asked for, zero when absent.
pub open spec fn requested_random(random_count: Option<usize>) -> int {
    match random_count {
        Some(n) => n as int,
        None => 0,
    }
}

/// The explicit requests as character sequences, empty when absent.
pub open spec fn explicit_view(explicit: &Option<Vec<String>>) -> Seq<Seq<char>> {
    match explicit {
        Some(e) => e.deep_view(),
        None => Seq::empty(),
    }
}

/// Validation processes a concatenation left to right: an error in the
/// first part stands, otherwise the second part runs on what is left.
proof fn lemma_validate_explicit_append(
    working: Multiset<Seq<char>>,
    a: Seq<Seq<char>>,
    b: Seq<Seq<char>>,
)
    ensures
        validate_explicit(working, a + b) == (match validate_explicit(working, a) {
            Ok(rem) => validate_explicit(rem, b),
            Err(s) => Err::<Multiset<Seq<char>>, Seq<char>>(s),
        }),
    decreases a.len(),
{
    if a.len() == 0 {
        assert(a + b =~= b);
    } else {
        assert((a + b)[0] == a[0]);
        assert((a + b).drop_first() =~= a.drop_first() + b);
        if working.count(a[0]) > 0 {
            lemma_validate_explicit_append(working.remove(a[0]), a.drop_first(), b);
        }
    }
}

/// A successful validation uses up exactly one pool occurrence per request:
/// the requests and the leftover together are the starting pool.
pub proof fn lemma_validate_explicit_partitions(
    working: Multiset<Seq<char>>,
    expl: Seq<Seq<char>>,
)
    requires
        validate_explicit(working, expl) is Ok,
    ensures
        expl.to_multiset().add(validate_explicit(working, expl)->Ok_0) == working,
    decreases expl.len(),
{
    broadcast use group_to_multiset_ensures;
    broadcast use vstd::multiset::group_multiset_axioms;

    if expl.len() == 0 {
        assert(expl.to_multiset().add(working) =~= working);
    } else {
        let e0 = expl[0];
        let rest = expl.drop_first();
        lemma_validate_explicit_partitions(working.remove(e0), rest);
        let rem = validate_explicit(working, expl)->Ok_0;
        assert(expl.remove(0) =~= rest);
        assert(rest.to_multiset() == expl.to_multiset().remove(e0));
        assert(expl.contains(e0));
        assert(expl.to_multiset().count(e0) > 0);
        assert(rest.to_multiset().add(rem) == working.remove(e0));
        assert(working.count(e0) > 0);
        assert forall|x: Seq<char>|
            expl.to_multiset().add(rem).count(x) == working.count(x) by {
            assert(rest.to_multiset().count(x) + rem.count(x) == working.remove(e0).count(x));
            if x == e0 {
                assert(expl.to_multiset().count(x) == rest.to_multiset().count(x) + 1);
                assert(working.remove(e0).count(x) == working.count(x) - 1);
            } else {
                assert(expl.to_multiset().count(x) == rest.to_multiset().count(x));
                assert(working.remove(e0).count(x) == working.count(x));
            }
        }
        assert(expl.to_multiset().add(rem) =~= working);
    }
}

/// The elements of a sequence found at chosen positions.
spec fn picked<A>(s: Seq<A>, idx: Seq<usize>) -> Seq<A> {
    Seq::new(idx.len(), |j: int| s[idx[j] as int])
}

/// Elements taken at distinct positions form a submultiset: no occurrence
/// is used twice.
proof fn lemma_picked_submultiset<A>(s: Seq<A>, idx: Seq<usize>)
    requires
        forall|j: int| 0 <= j < idx.len() ==> idx[j] < s.len(),
        forall|j1: int, j2: int| 0 <= j1 < j2 < idx.len() ==> idx[j1] != idx[j2],
    ensures
        picked(s, idx).to_multiset().subset_of(s.to_multiset()),
    decreases idx.len(),
{
    broadcast use group_to_multiset_ensures;
    broadcast use vstd::multiset::group_multiset_axioms;

    if idx.len() == 0 {
        assert(picked(s, idx) =~= Seq::<A>::empty());
        assert(forall|x: A| !picked(s, idx).contains(x));
    } else {
        let i0 = idx[0] as int;
        let rest = idx.drop_first();
        let s2 = s.remove(i0);
        let shifted = Seq::new(
            rest.len(),
            |j: int|
                if rest[j] > idx[0] {
                    (rest[j] - 1) as usize
                } else {
                    rest[j]
                },
        );
        assert forall|j: int| 0 <= j < shifted.len() implies shifted[j] < s2.len() by {
            assert(rest[j] == idx[j + 1]);
            assert(idx[j + 1] != idx[0]);
        }
        assert forall|j1: int, j2: int| 0 <= j1 < j2 < shifted.len() implies shifted[j1]
            != shifted[j2] by {
            assert(rest[j1] == idx[j1 + 1]);
            assert(rest[j2] == idx[j2 + 1]);
            assert(idx[j1 + 1] != idx[j2 + 1]);
            assert(idx[j1 + 1] != idx[0]);
            assert(idx[j2 + 1] != idx[0]);
        }
        lemma_picked_submultiset(s2, shifted);
        assert(picked(s2, shifted) =~= picked(s, rest)) by {
            assert forall|j: int| 0 <= j < rest.len() implies s2[shifted[j] as int] == s[rest[j] as int] by {
                assert(rest[j] == idx[j + 1]);
                assert(idx[j + 1] != idx[0]);
            }
        }
        assert(s2.to_multiset() == s.to_multiset().remove(s[i0]));
        assert(s.contains(s[i0]));
        assert(s.to_multiset().count(s[i0]) > 0);
        let p = picked(s, idx);
        assert(p.remove(0) =~= picked(s, rest));
        assert(p.remove(0).to_multiset() == p.to_multiset().remove(p[0]));
        assert(p[0] == s[i0]);
        assert(p.contains(p[0]));
        assert(p.to_multiset().count(p[0]) > 0);
        assert forall|x: A| p.to_multiset().count(x) <= s.to_multiset().count(x) by {
            if x == s[i0] {
                assert(p.to_multiset().remove(p[0]).count(x) == p.to_multiset().count(x) - 1);
                assert(s.to_multiset().remove(s[i0]).count(x) == s.to_multiset().count(x) - 1);
            } else {
                assert(p.to_multiset().remove(p[0]).count(x) == p.to_multiset().count(x));
                assert(s.to_multiset().remove(s[i0]).count(x) == s.to_multiset().count(x));
            }
        }
    }
}

/// Relies on rand::seq::index::sample: `amount` distinct indices drawn
/// uniformly from `0..length`, in random order, from the process-local
/// generator. Nothing is promised about which indices come back.
#[verifier::external_body]
fn sample_indices(length: usize, amount: usize) -> (r: Vec<usize>)
    requires
        amount <= length,
    ensures
        r@.len() == amount,
        forall|j: int| 0 <= j < r@.len() ==> r@[j] < length,
        forall|j1: int, j2: int| 0 <= j1 < j2 < r@.len() ==> r@[j1] != r@[j2],
{
    rand::seq::index::sample(&mut rand::thread_rng(), length, amount).into_vec()
}

/// First position holding the given string, if any.
#[verifier::loop_isolation(false)]
fn find_string(v: &Vec<String>, x: &String) -> (r: Option<usize>)
    ensures
        match r {
            Some(i) => i < v@.len() && v.deep_view()[i as int] == x@,
            None => forall|j: int| 0 <= j < v@.len() ==> v.deep_view()[j] != x@,
        },
{
    let mut i: usize = 0;
    while i < v.len()
        invariant
            i <= v@.len(),
            forall|j: int| 0 <= j < i ==> v.deep_view()[j] != x@,
        decreases v@.len() - i,
    {
        if v[i].eq(x) {
            return Some(i);
        }
        i = i + 1;
    }
    None
}

/// Exact, case-sensitive catalog membership.
pub fn catalog_contains(catalog: &Vec<String>, symbol: &String) -> (r: bool)
    ensures
        r == catalog.deep_view().contains(symbol@),
{
    match find_string(catalog, symbol) {
        Some(_) => true,
        None => false,
    }
}

/// Case-insensitive availability: is some catalog entry the same symbol up
/// to uppercasing?
#[verifier::loop_isolation(false)]
pub fn is_available(symbol: &str, catalog: &Vec<String>) -> (r: bool)
    ensures
        r == exists|i: int|
            0 <= i < catalog.deep_view().len() && upper_of(#[trigger] catalog.deep_view()[i])
                == upper_of(symbol@),
{
    let us = to_upper(symbol);
    let mut i: usize = 0;
    while i < catalog.len()
        invariant
            i <= catalog@.len(),
            forall|j: int| 0 <= j < i ==> upper_of(#[trigger] catalog.deep_view()[j]) != upper_of(
                symbol@,
            ),
        decreases catalog@.len() - i,
    {
        let ue = to_upper(catalog[i].as_str());
        if ue.eq(&us) {
            proof {
                assert(upper_of(catalog.deep_view()[i as int]) == upper_of(symbol@));
            }
            return true;
        }
        i = i + 1;
    }
    false
}

/// Copy a catalog into a working pool.
#[verifier::loop_isolation(false)]
fn clone_strings(v: &Vec<String>) -> (r: Vec<String>)
    ensures
        r@ == v@,
{
    let mut r: Vec<String> = Vec::new();
    let mut i: usize = 0;
    while i < v.len()
        invariant
            i <= v@.len(),
            r@ == v@.subrange(0, i as int),
        decreases v@.len() - i,
    {
        r.push(v[i].clone());
        i = i + 1;
        assert(r@ =~= v@.subrange(0, i as int));
    }
    assert(r@ =~= v@);
    r
}

/// Take each explicitly requested symbol out of the working pool in
/// request order, appending it to the selection; stop at the first symbol
/// with no remaining occurrence.
#[verifier::loop_isolation(false)]
fn select_explicit(
    working: &mut Vec<String>,
    expl_vec: &Vec<String>,
    selected: &mut Vec<String>,
) -> (r: Option<String>)
    requires
        old(selected)@.len() == 0,
    ensures
        ({
            let start = old(working).deep_view().to_multiset();
            let expl = expl_vec.deep_view();
            match r {
                None => {
                    &&& validate_explicit(start, expl) == Ok::<Multiset<Seq<char>>, Seq<char>>(
                        final(working).deep_view().to_multiset(),
                    )
                    &&& final(selected).deep_view() == expl
                },
                Some(missing) => validate_explicit(start, expl) == Err::<
                    Multiset<Seq<char>>,
                    Seq<char>,
                >(missing@),
            }
        }),
{
    broadcast use group_to_multiset_ensures;
    broadcast use vstd::multiset::group_multiset_axioms;

    let ghost start = working.deep_view().to_multiset();
    let ghost expl = expl_vec.deep_view();
    proof {
        assert(expl.take(0) =~= Seq::<Seq<char>>::empty());
        assert(selected.deep_view() =~= Seq::<Seq<char>>::empty());
    }
    let mut k: usize = 0;
    while k < expl_vec.len()
        invariant
            k <= expl.len(),
            selected.deep_view() == expl.take(k as int),
            selected@.len() == k,
            validate_explicit(start, expl.take(k as int)) == Ok::<
                Multiset<Seq<char>>,
                Seq<char>,
            >(working.deep_view().to_multiset()),
        decreases expl.len() - k,
    {
        let sym = &expl_vec[k];
        let ghost x = expl[k as int];
        proof {
            assert(sym@ == x);
            lemma_validate_explicit_append(start, expl.take(k as int), seq![x]);
            assert(expl.take(k as int) + seq![x] =~= expl.take(k + 1));
            assert(seq![x][0] == x);
            assert(seq![x].drop_first() =~= Seq::<Seq<char>>::empty());
        }
        match find_string(working, sym) {
            None => {
                proof {
                    assert(!working.deep_view().contains(x));
                    assert(working.deep_view().to_multiset().count(x) == 0);
                    assert(validate_explicit(start, expl.take(k + 1)) == Err::<
                        Multiset<Seq<char>>,
                        Seq<char>,
                    >(x));
                    // an error on a prefix settles the whole list
                    lemma_validate_explicit_append(start, expl.take(k + 1), expl.skip(k + 1));
                    assert(expl.take(k + 1) + expl.skip(k + 1) =~= expl);
                }
                return Some(sym.clone());
            },
            Some(pos) => {
                selected.push(sym.clone());
                let ghost wpre = working.deep_view();
                working.remove(pos);
                proof {
                    assert(wpre[pos as int] == x);
                    assert(wpre.contains(x));
                    assert(wpre.to_multiset().count(x) > 0);
                    assert(working.deep_view() =~= wpre.remove(pos as int));
                    assert(wpre.remove(pos as int).to_multiset() == wpre.to_multiset().remove(x));
                    assert(seq![x].len() == 1);
                    assert(validate_explicit(wpre.to_multiset(), seq![x]) == validate_explicit(
                        wpre.to_multiset().remove(x),
                        seq![x].drop_first(),
                    ));
                    assert(validate_explicit(
                        wpre.to_multiset().remove(x),
                        Seq::<Seq<char>>::empty(),
                    ) == Ok::<Multiset<Seq<char>>, Seq<char>>(wpre.to_multiset().remove(x)));
                    assert(selected.deep_view() =~= expl.take(k + 1));
                }
                k = k + 1;
            },
        }
    }
    proof {
        assert(expl.take(expl.len() as int) =~= expl);
    }
    None
}

/// Draw the given number of symbols from the pool at distinct positions,
/// chosen uniformly at random.
#[verifier::loop_isolation(false)]
fn draw_random(working: &Vec<String>, amount: usize) -> (r: Vec<String>)
    requires
        amount <= working@.len(),
    ensures
        r@.len() == amount,
        r.deep_view().to_multiset().subset_of(working.deep_view().to_multiset()),
{
    broadcast use group_to_multiset_ensures;
    broadcast use vstd::multiset::group_multiset_axioms;

    let idx = sample_indices(working.len(), amount);
    let mut r: Vec<String> = Vec::new();
    proof {
        assert(r.deep_view() =~= Seq::<Seq<char>>::empty());
        assert(idx@.subrange(0, 0) =~= Seq::<usize>::empty());
        assert(picked(working.deep_view(), idx@.subrange(0, 0)) =~= Seq::<Seq<char>>::empty());
    }
    let mut j: usize = 0;
    while j < idx.len()
        invariant
            j <= idx@.len(),
            r@.len() == j,
            r.deep_view() == picked(working.deep_view(), idx@.subrange(0, j as int)),
        decreases idx@.len() - j,
    {
        let i = idx[j];
        r.push(working[i].clone());
        proof {
            assert(idx@.subrange(0, j + 1) =~= idx@.subrange(0, j as int).push(idx@[j as int]));
            assert(picked(working.deep_view(), idx@.subrange(0, j + 1)) =~= picked(
                working.deep_view(),
                idx@.subrange(0, j as int),
            ).push(working.deep_view()[i as int]));
            assert(r.deep_view() =~= picked(working.deep_view(), idx@.subrange(0, j + 1)));
        }
        j = j + 1;
    }
    proof {
        assert(idx@.subrange(0, idx@.len() as int) =~= idx@);
        lemma_picked_submultiset(working.deep_view(), idx@);
    }
    r
}

/// Plan a selection: validate each explicitly requested symbol in order
/// against the catalog, failing fast on the first unknown one, then draw
/// the requested number of further symbols uniformly at random without
/// replacement from what remains. A draw larger than the remaining pool is
/// cut to the pool and flagged; an empty overall selection is an error.
pub fn plan(
    catalog: &Vec<String>,
    explicit: &Option<Vec<String>>,
    random_count: Option<usize>,
) -> (r: Result<PlanOutcome, PlanError>)
    ensures
        ({
            let cat = catalog.deep_view();
            let expl = explicit_view(explicit);
            let v = validate_explicit(cat.to_multiset(), expl);
            match r {
                Ok(o) => {
                    &&& v is Ok
                    &&& o.selected.deep_view().len() == expl.len() + min(
                        requested_random(random_count),
                        v->Ok_0.len() as int,
                    )
                    &&& o.selected.deep_view().len() > 0
                    &&& o.selected.deep_view().take(expl.len() as int) == expl
                    &&& o.selected.deep_view().skip(expl.len() as int).to_multiset().subset_of(
                        v->Ok_0,
                    )
                    &&& o.insufficient_random_pool == (requested_random(random_count)
                        > v->Ok_0.len())
                    &&& (cat.no_duplicates() ==> o.selected.deep_view().no_duplicates())
                    &&& forall|t: int|
                        0 <= t < o.selected.deep_view().len() ==> cat.contains(
                            #[trigger] o.selected.deep_view()[t],
                        )
                },
                Err(PlanError::UnknownAsset(s)) => v == Err::<Multiset<Seq<char>>, Seq<char>>(s@),
                Err(PlanError::NoAssetsSelected) => {
                    &&& v is Ok
                    &&& expl.len() + min(requested_random(random_count), v->Ok_0.len() as int)
                        == 0
                },
            }
        }),
{
    broadcast use group_to_multiset_ensures;
    broadcast use vstd::multiset::group_multiset_axioms;

    let ghost cat = catalog.deep_view();
    let ghost expl = explicit_view(explicit);
    let mut working: Vec<String> = clone_strings(catalog);
    let mut selected: Vec<String> = Vec::new();
    proof {
        assert(working.deep_view() =~= cat);
    }

    if let Some(expl_vec) = explicit {
        if let Some(missing) = select_explicit(&mut working, expl_vec, &mut selected) {
            return Err(PlanError::UnknownAsset(missing));
        }
    } else {
        proof {
            assert(selected.deep_view() =~= expl);
        }
    }

    let ghost rem = working.deep_view().to_multiset();
    let ghost expl_len = expl.len() as int;
    proof {
        assert(validate_explicit(cat.to_multiset(), expl) == Ok::<Multiset<Seq<char>>, Seq<char>>(
            rem,
        ));
        assert(rem.len() == working.deep_view().len());
        assert(selected.deep_view() == expl);
        assert(selected@.len() == expl.len());
    }

    let mut insufficient = false;
    let mut drawn_count: usize = 0;
    if let Some(n) = random_count {
        if n > 0 {
            if n > working.len() {
                insufficient = true;
            }
            let amount = if n < working.len() {
                n
            } else {
                working.len()
            };
            let mut drawn = draw_random(&working, amount);
            drawn_count = amount;
            let ghost dv = drawn.deep_view();
            let ghost sel_pre = selected.deep_view();
            selected.append(&mut drawn);
            proof {
                assert(selected.deep_view() =~= sel_pre + dv);
                assert(selected.deep_view().skip(expl_len) =~= dv);
            }
        }
    }
    proof {
        assert(selected.deep_view().take(expl_len) =~= expl);
        if drawn_count == 0 {
            assert(selected.deep_view().skip(expl_len) =~= Seq::<Seq<char>>::empty());
            assert(forall|x: Seq<char>| !selected.deep_view().skip(expl_len).contains(x));
        }
    }

    if selected.len() == 0 {
        return Err(PlanError::NoAssetsSelected);
    }

    proof {
        // each selected symbol is a catalog member: explicit ones were
        // validated against the pool, random ones drawn from it
        let sel = selected.deep_view();
        let drawn = sel.skip(expl_len);
        lemma_validate_explicit_partitions(cat.to_multiset(), expl);
        assert forall|t: int| 0 <= t < sel.len() implies cat.contains(#[trigger] sel[t]) by {
            if t < expl_len {
                assert(sel[t] == expl[t]);
                assert(expl.contains(expl[t]));
                assert(expl.to_multiset().count(expl[t]) > 0);
                assert(cat.to_multiset().count(expl[t]) > 0);
            } else {
                assert(sel[t] == drawn[t - expl_len]);
                assert(drawn.contains(drawn[t - expl_len]));
                assert(drawn.to_multiset().count(sel[t]) > 0);
                assert(rem.count(sel[t]) > 0);
                assert(cat.to_multiset().count(sel[t]) > 0);
            }
        }
        if cat.no_duplicates() {
            let sel = selected.deep_view();
            let drawn = sel.skip(expl_len);
            cat.lemma_multiset_has_no_duplicates();
            lemma_validate_explicit_partitions(cat.to_multiset(), expl);
            lemma_multiset_commutative(expl, drawn);
            assert(expl + drawn =~= sel);
            assert forall|x: Seq<char>|
                sel.to_multiset().contains(x) implies sel.to_multiset().count(x) == 1 by {
                assert(sel.to_multiset().count(x) == expl.to_multiset().count(x)
                    + drawn.to_multiset().count(x));
                assert(drawn.to_multiset().count(x) <= rem.count(x));
                assert(expl.to_multiset().count(x) + rem.count(x) == cat.to_multiset().count(x));
                assert(cat.to_multiset().count(x) <= 1) by {
                    if cat.to_multiset().count(x) > 1 {
                        assert(cat.to_multiset().contains(x));
                    }
                }
            }
            sel.lemma_multiset_has_no_duplicates_conv();
        }
    }
    Ok(PlanOutcome { selected, insufficient_random_pool: insufficient })
}

} // verus!
