//! The config assembler: turns a selection into a configuration artifact
//! keyed by symbol, with keys held in ascending lexicographic order
//! whatever the selection order was.
use crate::encoder::{encode, encoded_id_of};
use crate::text::{chars_of, lex_lt, lex_lt_exec, lemma_lex_lt_transitive, lemma_lex_lt_trichotomy};
use vstd::prelude::*;

verus! {

/// One configured asset: the symbol, the two shared scalar parameters, and
/// the symbol's encoded identifier. The percent-change threshold is an
/// IEEE-754 double carried through as its bit pattern; this crate never
/// computes with it.
pub struct AssetConfigEntry {
    pub asset_id: String,
    pub fallback_period_sec: u64,
    pub percent_change_threshold_bits: u64,
    pub encoded_asset_id: String,
}

/// The finished artifact: entries unique by symbol, in ascending key order.
pub struct ConfigArtifact {
    pub entries: Vec<AssetConfigEntry>,
}

/// An entry carries the shared scalars and the encoding of its own key.
pub open spec fn entry_wf(e: AssetConfigEntry, fallback: u64, threshold_bits: u64) -> bool {
    &&& e.fallback_period_sec == fallback
    &&& e.percent_change_threshold_bits == threshold_bits
    &&& e.encoded_asset_id@ == encoded_id_of(e.asset_id@)
}

/// Keys strictly ascending in lexicographic order; in particular, unique.
pub open spec fn entries_sorted(s: Seq<AssetConfigEntry>) -> bool {
    forall|i: int, j: int|
        0 <= i < j < s.len() ==> lex_lt(#[trigger] s[i].asset_id@, #[trigger] s[j].asset_id@)
}

/// Some entry holds the given key.
pub open spec fn has_key(s: Seq<AssetConfigEntry>, k: Seq<char>) -> bool {
    exists|i: int| 0 <= i < s.len() && s[i].asset_id@ == k
}

/// First position whose key is not below the given one; the insertion
/// point that keeps the keys ascending.
#[verifier::loop_isolation(false)]
fn find_insert_pos(entries: &Vec<AssetConfigEntry>, key_chars: &Vec<char>) -> (p: usize)
    ensures
        p <= entries@.len(),
        forall|i: int| 0 <= i < p ==> lex_lt(#[trigger] entries@[i].asset_id@, key_chars@),
        p < entries@.len() ==> !lex_lt(entries@[p as int].asset_id@, key_chars@),
{
    let mut p: usize = 0;
    while p < entries.len()
        invariant
            p <= entries@.len(),
            forall|i: int| 0 <= i < p ==> lex_lt(#[trigger] entries@[i].asset_id@, key_chars@),
        decreases entries@.len() - p,
    {
        let cand = chars_of(entries[p].asset_id.as_str());
        if !lex_lt_exec(&cand, key_chars) {
            return p;
        }
        p = p + 1;
    }
    p
}

/// Place an entry at its key's position, replacing an entry already under
/// the same key, keeping the keys in ascending order.
#[verifier::loop_isolation(false)]
fn insert_entry(entries: &mut Vec<AssetConfigEntry>, entry: AssetConfigEntry)
    requires
        entries_sorted(old(entries)@),
    ensures
        entries_sorted(final(entries)@),
        forall|k: Seq<char>|
            #[trigger] has_key(final(entries)@, k) <==> (has_key(old(entries)@, k) || k
                == entry.asset_id@),
        forall|i: int|
            0 <= i < final(entries)@.len() ==> (#[trigger] final(entries)@[i] == entry || old(
                entries,
            )@.contains(final(entries)@[i])),
{
    let key_chars = chars_of(entry.asset_id.as_str());
    let p = find_insert_pos(entries, &key_chars);
    let ghost pre = entries@;
    if p < entries.len() && entries[p].asset_id.eq(&entry.asset_id) {
        // same key: the new entry replaces the old one
        entries.remove(p);
        entries.insert(p, entry);
        proof {
            assert(entries@ =~= pre.update(p as int, entry));
            assert forall|i: int, j: int| 0 <= i < j < entries@.len() implies lex_lt(
                entries@[i].asset_id@,
                entries@[j].asset_id@,
            ) by {
                assert(entries@[i].asset_id@ == pre[i].asset_id@);
                assert(entries@[j].asset_id@ == pre[j].asset_id@);
            }
            assert forall|k: Seq<char>| #[trigger]
                has_key(entries@, k) <==> (has_key(pre, k) || k == entry.asset_id@) by {
                if has_key(pre, k) {
                    let i = choose|i: int| 0 <= i < pre.len() && pre[i].asset_id@ == k;
                    assert(entries@[i].asset_id@ == k);
                }
                if k == entry.asset_id@ {
                    assert(entries@[p as int].asset_id@ == k);
                }
            }
        }
    } else {
        proof {
            // the new key sits strictly below every key from position p on
            assert forall|t: int| p <= t < pre.len() implies lex_lt(
                entry.asset_id@,
                #[trigger] pre[t].asset_id@,
            ) by {
                lemma_lex_lt_trichotomy(pre[p as int].asset_id@, entry.asset_id@);
                if t > p {
                    lemma_lex_lt_transitive(
                        entry.asset_id@,
                        pre[p as int].asset_id@,
                        pre[t].asset_id@,
                    );
                }
            }
        }
        entries.insert(p, entry);
        proof {
            assert(entries@ =~= pre.insert(p as int, entry));
            assert forall|i: int, j: int| 0 <= i < j < entries@.len() implies lex_lt(
                entries@[i].asset_id@,
                entries@[j].asset_id@,
            ) by {
                if j < p {
                    assert(entries@[i] == pre[i]);
                    assert(entries@[j] == pre[j]);
                } else if j == p {
                    assert(entries@[i] == pre[i]);
                } else if i == p {
                    assert(entries@[j] == pre[j - 1]);
                } else if i < p {
                    assert(entries@[i] == pre[i]);
                    assert(entries@[j] == pre[j - 1]);
                } else {
                    assert(entries@[i] == pre[i - 1]);
                    assert(entries@[j] == pre[j - 1]);
                }
            }
            assert forall|k: Seq<char>| #[trigger]
                has_key(entries@, k) <==> (has_key(pre, k) || k == entry.asset_id@) by {
                if has_key(pre, k) {
                    let i = choose|i: int| 0 <= i < pre.len() && pre[i].asset_id@ == k;
                    if i < p {
                        assert(entries@[i].asset_id@ == k);
                    } else {
                        assert(entries@[i + 1].asset_id@ == k);
                    }
                }
                if k == entry.asset_id@ {
                    assert(entries@[p as int].asset_id@ == k);
                }
                if has_key(entries@, k) {
                    let i = choose|i: int| 0 <= i < entries@.len() && entries@[i].asset_id@ == k;
                    if i < p {
                        assert(pre[i].asset_id@ == k);
                    } else if i > p {
                        assert(pre[i - 1].asset_id@ == k);
                    }
                }
            }
            assert forall|i: int| 0 <= i < entries@.len() implies (#[trigger] entries@[i] == entry
                || pre.contains(entries@[i])) by {
                if i < p {
                    assert(entries@[i] == pre[i]);
                } else if i > p {
                    assert(entries@[i] == pre[i - 1]);
                }
            }
        }
    }
}

/// Assemble the configuration artifact for a selection: one entry per
/// distinct selected symbol, all sharing the two scalar parameters, each
/// carrying the encoding of its own symbol, with keys in ascending
/// lexicographic order regardless of selection order. A symbol selected
/// twice yields a single entry.
#[verifier::loop_isolation(false)]
pub fn assemble(
    selected: &Vec<String>,
    fallback_period_sec: u64,
    percent_change_threshold_bits: u64,
) -> (r: ConfigArtifact)
    ensures
        entries_sorted(r.entries@),
        forall|i: int|
            0 <= i < r.entries@.len() ==> entry_wf(
                #[trigger] r.entries@[i],
                fallback_period_sec,
                percent_change_threshold_bits,
            ),
        forall|k: Seq<char>| #[trigger]
            has_key(r.entries@, k) <==> selected.deep_view().contains(k),
        selected.deep_view().len() > 0 ==> r.entries@.len() > 0,
{
    let mut entries: Vec<AssetConfigEntry> = Vec::new();
    let mut i: usize = 0;
    while i < selected.len()
        invariant
            i <= selected@.len(),
            entries_sorted(entries@),
            forall|t: int|
                0 <= t < entries@.len() ==> entry_wf(
                    #[trigger] entries@[t],
                    fallback_period_sec,
                    percent_change_threshold_bits,
                ),
            forall|k: Seq<char>| #[trigger]
                has_key(entries@, k) <==> selected.deep_view().subrange(0, i as int).contains(k),
        decreases selected@.len() - i,
    {
        let symbol = &selected[i];
        let encoded = encode(symbol.as_str());
        let entry = AssetConfigEntry {
            asset_id: symbol.clone(),
            fallback_period_sec,
            percent_change_threshold_bits,
            encoded_asset_id: encoded,
        };
        let ghost pre = entries@;
        insert_entry(&mut entries, entry);
        proof {
            let sel = selected.deep_view();
            assert forall|k: Seq<char>| #[trigger]
                has_key(entries@, k) <==> sel.subrange(0, i + 1).contains(k) by {
                if has_key(entries@, k) {
                    if has_key(pre, k) {
                        let t = choose|t: int| 0 <= t < sel.subrange(0, i as int).len()
                            && sel.subrange(0, i as int)[t] == k;
                        assert(sel.subrange(0, i + 1)[t] == k);
                    } else {
                        assert(k == sel[i as int]);
                        assert(sel.subrange(0, i + 1)[i as int] == k);
                    }
                }
                if sel.subrange(0, i + 1).contains(k) {
                    let t = choose|t: int|
                        0 <= t < sel.subrange(0, i + 1).len() && #[trigger] sel.subrange(
                            0,
                            i + 1,
                        )[t] == k;
                    if t < i {
                        assert(sel.subrange(0, i as int)[t] == k);
                    } else {
                        assert(k == sel[i as int]);
                        assert(k == entry.asset_id@);
                    }
                }
            }
        }
        i = i + 1;
    }
    proof {
        assert(selected.deep_view().subrange(0, selected.deep_view().len() as int)
            =~= selected.deep_view());
        if selected.deep_view().len() > 0 {
            assert(selected.deep_view().contains(selected.deep_view()[0]));
            assert(has_key(entries@, selected.deep_view()[0]));
        }
    }
    ConfigArtifact { entries }
}

} // verus!
