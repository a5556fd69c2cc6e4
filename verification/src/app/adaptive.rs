//! Weak-key practice: the words and sentences that drill the keys a typist misses most,
//! ranked by how many of those keys they hold, with equal ranks shuffled by a seed.
use crate::app::{item_views, permuted, shuffle_seeded, shuffled_by, sorted_by_item_id};
use crate::content::{CatalogView, ContentCatalog, ContentKind, ResolvedItem, ResolvedItemView};
use crate::model::Language;
use crate::stats::{
    intended_key_counts, keys_ascending, language_entries, tallies, weak_keys, weak_keys_of, KeyCount,
    SessionEntry,
};
use crate::text::{lemma_text_lt_irreflexive, lemma_text_lt_total, lemma_text_lt_transitive, str_lt, text_lt};
use crate::typing::{key_units, key_units_spec};
use vstd::prelude::*;

verus! {

/// An item weak-key practice may offer in a language: a word or a sentence of it.
pub open spec fn adaptive_kind(v: ResolvedItemView, language: Language) -> bool {
    v.language == language && (v.kind == ContentKind::Word || v.kind == ContentKind::Sentence)
}

/// Whether weak-key practice may offer an item in a language.
pub open spec fn adaptive_filter(language: Language) -> spec_fn(ResolvedItemView) -> bool {
    |v: ResolvedItemView| adaptive_kind(v, language)
}

/// The items weak-key practice may offer, in catalog order.
pub open spec fn adaptive_pool(catalog: CatalogView, language: Language) -> Seq<ResolvedItemView> {
    catalog.items.filter(adaptive_filter(language))
}

/// How many of `units` are weak keys.
pub open spec fn weak_count(units: Seq<char>, weak: Seq<char>) -> nat
    decreases units.len(),
{
    if units.len() == 0 {
        0
    } else {
        weak_count(units.drop_last(), weak) + if weak.contains(units.last()) {
            1nat
        } else {
            0nat
        }
    }
}

/// An item's score: how many of its text's key units are weak keys (a key counts every time).
pub open spec fn weak_score(v: ResolvedItemView, language: Language, weak: Seq<char>) -> nat {
    weak_count(key_units_spec(language, v.text), weak)
}

/// Item `a` ranks before item `b`: a higher score, or the same score and a smaller ID.
pub open spec fn ranks_before(a: ResolvedItemView, b: ResolvedItemView, language: Language, weak: Seq<char>) -> bool {
    weak_score(a, language, weak) > weak_score(b, language, weak) || (weak_score(a, language, weak)
        == weak_score(b, language, weak) && text_lt(a.id, b.id))
}

/// Items in rank order (items that rank alike in either order).
pub open spec fn ranked(s: Seq<ResolvedItemView>, language: Language, weak: Seq<char>) -> bool {
    forall|i: int, j: int| 0 <= i < j < s.len() ==> !ranks_before(s[j], s[i], language, weak)
}

/// Where the run of items with the score of item `start` ends, looking from `k` on.
pub open spec fn run_end_from(s: Seq<ResolvedItemView>, language: Language, weak: Seq<char>, start: int, k: int) -> int
    decreases s.len() - k,
{
    if k >= s.len() || k < 0 || weak_score(s[k], language, weak) != weak_score(s[start], language, weak) {
        k
    } else {
        run_end_from(s, language, weak, start, k + 1)
    }
}

/// A run ends after its first item, and within the list.
pub proof fn lemma_run_end_from(s: Seq<ResolvedItemView>, language: Language, weak: Seq<char>, start: int, k: int)
    requires
        0 <= k,
    ensures
        run_end_from(s, language, weak, start, k) >= k,
        k <= s.len() ==> run_end_from(s, language, weak, start, k) <= s.len(),
    decreases s.len() - k,
{
    if k < s.len() && weak_score(s[k], language, weak) == weak_score(s[start], language, weak) {
        lemma_run_end_from(s, language, weak, start, k + 1);
    }
}

/// The ranked items with every run of equal scores shuffled, one run after another, by one
/// generator seeded with `seed` (a run of one item is left as it is), from item `start` on.
pub open spec fn shuffled_runs(s: Seq<ResolvedItemView>, language: Language, weak: Seq<char>, seed: u64, start: int) -> Seq<
    ResolvedItemView,
>
    decreases s.len() - start,
{
    if start < 0 || start >= s.len() {
        Seq::empty()
    } else {
        let end = run_end_from(s, language, weak, start, start + 1);
        proof {
            lemma_run_end_from(s, language, weak, start, start + 1);
        }
        let run = s.subrange(start, end);
        if run.len() > 1 {
            let (order, next) = shuffled_by(seed, run.len(), usize::BITS);
            permuted(run, order) + shuffled_runs(s, language, weak, next, end)
        } else {
            run + shuffled_runs(s, language, weak, seed, end)
        }
    }
}

/// The candidates of weak-key practice for the weak keys `weak` and a seed. With no weak key,
/// every item of the pool, in ID order, shuffled with the seed. Otherwise the items of the pool
/// holding a weak key, ranked ([`ranked`]), with each run of equal scores shuffled
/// ([`shuffled_runs`]). (Items that rank alike may stand in either order before shuffling.)
pub open spec fn adaptive_order(
    r: Seq<ResolvedItemView>,
    pool: Seq<ResolvedItemView>,
    language: Language,
    weak: Seq<char>,
    seed: u64,
) -> bool {
    if weak.len() == 0 {
        exists|sorted: Seq<ResolvedItemView>|
            #[trigger] sorted_by_item_id(sorted) && (forall|v: ResolvedItemView|
                sorted.contains(v) <==> pool.contains(v)) && r
                == permuted(sorted, shuffled_by(seed, sorted.len(), usize::BITS).0)
    } else {
        exists|sorted: Seq<ResolvedItemView>|
            #[trigger] ranked(sorted, language, weak) && (forall|v: ResolvedItemView|
                sorted.contains(v) <==> (pool.contains(v) && weak_score(v, language, weak) > 0)) && r
                == shuffled_runs(sorted, language, weak, seed, 0)
    }
}

/// How many of `units` are weak keys; see [`weak_count`].
fn count_weak(units: &Vec<char>, weak: &Vec<char>) -> (r: usize)
    ensures
        r == weak_count(units@, weak@),
{
    let mut n: usize = 0;
    let mut i: usize = 0;
    proof {
        assert(units@.take(0) =~= Seq::<char>::empty());
    }
    while i < units.len()
        invariant
            i <= units@.len(),
            n == weak_count(units@.take(i as int), weak@),
            n <= i,
        decreases units@.len() - i,
    {
        let u = units[i];
        let mut found = false;
        let mut j: usize = 0;
        while j < weak.len()
            invariant
                j <= weak@.len(),
                found == exists|q: int| 0 <= q < j && weak@[q] == u,
            decreases weak@.len() - j,
        {
            if weak[j] == u {
                found = true;
            }
            j = j + 1;
        }
        proof {
            assert(units@.take(i + 1).drop_last() =~= units@.take(i as int));
            assert(units@.take(i + 1).last() == u);
            if found {
                let q = choose|q: int| 0 <= q < j && weak@[q] == u;
                assert(weak@.contains(u));
            }
        }
        if found {
            n = n + 1;
        }
        i = i + 1;
    }
    proof {
        assert(units@.take(units@.len() as int) =~= units@);
    }
    n
}

/// Whether item `a` ranks before item `b` given their scores; see [`ranks_before`].
fn rank_less(a: &(usize, &ResolvedItem), b: &(usize, &ResolvedItem)) -> (r: bool)
    ensures
        r == (a.0 > b.0 || (a.0 == b.0 && text_lt(a.1@.id, b.1@.id))),
{
    a.0 > b.0 || (a.0 == b.0 && str_lt(a.1.id.as_str(), b.1.id.as_str()))
}

/// Ranking is transitive.
proof fn lemma_ranks_transitive(a: ResolvedItemView, b: ResolvedItemView, c: ResolvedItemView, language: Language, weak: Seq<char>)
    requires
        ranks_before(a, b, language, weak),
        ranks_before(b, c, language, weak),
    ensures
        ranks_before(a, c, language, weak),
{
    if weak_score(a, language, weak) == weak_score(b, language, weak) && weak_score(b, language, weak)
        == weak_score(c, language, weak) {
        lemma_text_lt_transitive(a.id, b.id, c.id);
    }
}

/// The views of scored items.
pub open spec fn scored_views(v: Seq<(usize, &ResolvedItem)>) -> Seq<ResolvedItemView> {
    v.map_values(|p: (usize, &ResolvedItem)| p.1@)
}

/// Sorts scored items into rank order, keeping every one.
fn rank_sort<'a>(items: &Vec<(usize, &'a ResolvedItem)>, Ghost(language): Ghost<Language>, Ghost(weak): Ghost<Seq<char>>) -> (r: Vec<(usize, &'a ResolvedItem)>)
    requires
        forall|k: int| 0 <= k < items@.len() ==> #[trigger] items@[k].0 == weak_score(items@[k].1@, language, weak),
    ensures
        forall|k: int| 0 <= k < r@.len() ==> #[trigger] r@[k].0 == weak_score(r@[k].1@, language, weak),
        ranked(scored_views(r@), language, weak),
        forall|v: ResolvedItemView| scored_views(r@).contains(v) <==> scored_views(items@).contains(v),
{
    let mut out: Vec<(usize, &'a ResolvedItem)> = Vec::new();
    let mut i: usize = 0;
    while i < items.len()
        invariant
            i <= items@.len(),
            forall|k: int| 0 <= k < items@.len() ==> #[trigger] items@[k].0 == weak_score(items@[k].1@, language, weak),
            forall|k: int| 0 <= k < out@.len() ==> #[trigger] out@[k].0 == weak_score(out@[k].1@, language, weak),
            ranked(scored_views(out@), language, weak),
            forall|v: ResolvedItemView| scored_views(out@).contains(v) <==> scored_views(items@.take(i as int)).contains(v),
        decreases items@.len() - i,
    {
        let x = items[i];
        let ghost before = out@;
        let mut p: usize = 0;
        while p < out.len() && !rank_less(&x, &out[p])
            invariant
                out@ == before,
                p <= out@.len(),
                forall|q: int| 0 <= q < p ==> !ranks_before(x.1@, #[trigger] scored_views(out@)[q], language, weak),
                x.0 == weak_score(x.1@, language, weak),
                forall|k: int| 0 <= k < out@.len() ==> #[trigger] out@[k].0 == weak_score(out@[k].1@, language, weak),
            decreases out@.len() - p,
        {
            proof {
                assert(scored_views(out@)[p as int] == out@[p as int].1@);
            }
            p = p + 1;
        }
        proof {
            if p < out@.len() {
                assert(scored_views(out@)[p as int] == out@[p as int].1@);
                assert(ranks_before(x.1@, scored_views(before)[p as int], language, weak));
            }
        }
        out.insert(p, x);
        proof {
            let bv = scored_views(before);
            let nv = scored_views(out@);
            assert(nv.len() == bv.len() + 1);
            assert forall|k: int| 0 <= k < nv.len() implies nv[k] == (if k < p {
                bv[k]
            } else if k == p {
                x.1@
            } else {
                bv[k - 1]
            }) by {
                if k < p {
                    assert(out@[k] == before[k]);
                } else if k > p {
                    assert(out@[k] == before[k - 1]);
                }
            }
            assert forall|k: int| 0 <= k < out@.len() implies #[trigger] out@[k].0 == weak_score(out@[k].1@, language, weak) by {
                if k < p {
                    assert(out@[k] == before[k]);
                } else if k > p {
                    assert(out@[k] == before[k - 1]);
                }
            }
            assert forall|a: int, b: int| 0 <= a < b < nv.len() implies !ranks_before(nv[b], nv[a], language, weak) by {
                if b < p {
                } else if b == p {
                    assert(nv[a] == bv[a]);
                } else if a < p {
                    assert(nv[a] == bv[a]);
                    assert(nv[b] == bv[b - 1]);
                } else if a == p {
                    assert(nv[b] == bv[b - 1]);
                    if ranks_before(bv[b - 1], x.1@, language, weak) {
                        if b - 1 > p {
                            lemma_ranks_transitive(bv[b - 1], x.1@, bv[p as int], language, weak);
                        } else {
                            lemma_ranks_transitive(bv[b - 1], x.1@, bv[b - 1], language, weak);
                            lemma_text_lt_irreflexive(bv[b - 1].id);
                        }
                    }
                } else {
                    assert(nv[a] == bv[a - 1]);
                    assert(nv[b] == bv[b - 1]);
                }
            }
            let old_prefix = scored_views(items@.take(i as int));
            let new_prefix = scored_views(items@.take(i + 1));
            assert(new_prefix =~= old_prefix.push(x.1@));
            assert forall|v: ResolvedItemView| nv.contains(v) <==> new_prefix.contains(v) by {
                if nv.contains(v) {
                    let k = choose|k: int| 0 <= k < nv.len() && nv[k] == v;
                    if k < p {
                        assert(bv.contains(bv[k]));
                        assert(old_prefix.contains(v));
                        let m = choose|m: int| 0 <= m < old_prefix.len() && old_prefix[m] == v;
                        assert(new_prefix[m] == v);
                    } else if k > p {
                        assert(bv.contains(bv[k - 1]));
                        assert(old_prefix.contains(v));
                        let m = choose|m: int| 0 <= m < old_prefix.len() && old_prefix[m] == v;
                        assert(new_prefix[m] == v);
                    } else {
                        assert(new_prefix[i as int] == v);
                    }
                }
                if new_prefix.contains(v) {
                    let m = choose|m: int| 0 <= m < new_prefix.len() && new_prefix[m] == v;
                    if m < i {
                        assert(old_prefix[m] == v);
                        assert(bv.contains(v));
                        let k = choose|k: int| 0 <= k < bv.len() && bv[k] == v;
                        if k < p {
                            assert(nv[k] == v);
                        } else {
                            assert(nv[k + 1] == v);
                        }
                    } else {
                        assert(nv[p as int] == v);
                    }
                }
            }
        }
        i = i + 1;
    }
    proof {
        assert(items@.take(items@.len() as int) =~= items@);
    }
    out
}

/// With no weak key, every score is zero.
proof fn lemma_no_weak_key_scores_zero(units: Seq<char>, weak: Seq<char>)
    requires
        weak.len() == 0,
    ensures
        weak_count(units, weak) == 0,
    decreases units.len(),
{
    if units.len() > 0 {
        lemma_no_weak_key_scores_zero(units.drop_last(), weak);
    }
}

/// Where the run of equal scores that starts at `start` ends; see [`run_end_from`].
fn run_end(sorted: &Vec<(usize, &ResolvedItem)>, start: usize, Ghost(language): Ghost<Language>, Ghost(w): Ghost<Seq<char>>) -> (end: usize)
    requires
        start < sorted@.len(),
        forall|k: int| 0 <= k < sorted@.len() ==> #[trigger] sorted@[k].0 == weak_score(sorted@[k].1@, language, w),
    ensures
        start < end <= sorted@.len(),
        end == run_end_from(scored_views(sorted@), language, w, start as int, start + 1),
{
    let ghost sv = scored_views(sorted@);
    let n = sorted.len();
    let mut end = start + 1;
    proof {
        assert(sorted@[start as int].1@ == sv[start as int]);
    }
    while end < n && sorted[end].0 == sorted[start].0
        invariant
            n == sorted@.len(),
            sv == scored_views(sorted@),
            start < end <= n,
            forall|k: int| 0 <= k < sorted@.len() ==> #[trigger] sorted@[k].0 == weak_score(sorted@[k].1@, language, w),
            run_end_from(sv, language, w, start as int, end as int) == run_end_from(sv, language, w, start as int, start + 1),
        decreases n - end,
    {
        proof {
            assert(sorted@[end as int].1@ == sv[end as int]);
            assert(sorted@[start as int].1@ == sv[start as int]);
        }
        end = end + 1;
    }
    proof {
        if end < n {
            assert(sorted@[end as int].1@ == sv[end as int]);
            assert(sorted@[start as int].1@ == sv[start as int]);
        }
    }
    end
}

/// The items from `start` to `end`.
fn copy_run<'a>(sorted: &Vec<(usize, &'a ResolvedItem)>, start: usize, end: usize) -> (run: Vec<&'a ResolvedItem>)
    requires
        start <= end <= sorted@.len(),
    ensures
        item_views(run@) == scored_views(sorted@).subrange(start as int, end as int),
{
    let ghost sv = scored_views(sorted@);
    let mut run: Vec<&'a ResolvedItem> = Vec::new();
    let mut k = start;
    while k < end
        invariant
            sv == scored_views(sorted@),
            start <= k <= end <= sorted@.len(),
            item_views(run@) == sv.subrange(start as int, k as int),
        decreases end - k,
    {
        let ghost old_run = run@;
        run.push(sorted[k].1);
        proof {
            assert(item_views(run@) =~= item_views(old_run).push(sorted@[k as int].1@));
            assert(sv[k as int] == sorted@[k as int].1@);
            assert(sv.subrange(start as int, k + 1) =~= sv.subrange(start as int, k as int).push(sv[k as int]));
        }
        k = k + 1;
    }
    run
}

/// Appends items.
fn append_items<'a>(out: &mut Vec<&'a ResolvedItem>, run: &Vec<&'a ResolvedItem>)
    ensures
        item_views(final(out)@) == item_views(old(out)@) + item_views(run@),
{
    let ghost before = out@;
    let mut j: usize = 0;
    while j < run.len()
        invariant
            j <= run@.len(),
            item_views(out@) == item_views(before) + item_views(run@).take(j as int),
        decreases run@.len() - j,
    {
        let ghost old_out = out@;
        out.push(run[j]);
        proof {
            assert(item_views(out@) =~= item_views(old_out).push(run@[j as int]@));
            assert(item_views(run@)[j as int] == run@[j as int]@);
            assert(item_views(run@).take(j + 1) =~= item_views(run@).take(j as int).push(item_views(run@)[j as int]));
        }
        j = j + 1;
    }
    proof {
        assert(item_views(run@).take(run@.len() as int) =~= item_views(run@));
    }
}

/// The candidates of weak-key practice for the weak keys `weak` and a seed; see
/// [`adaptive_order`].
pub fn rank_candidates<'a>(catalog: &'a ContentCatalog, weak: &Vec<char>, language: Language, seed: u64) -> (r:
    Vec<&'a ResolvedItem>)
    ensures
        adaptive_order(item_views(r@), adaptive_pool(catalog@, language), language, weak@, seed),
{
    let items = catalog.items();
    let ghost pred = adaptive_filter(language);
    let ghost w = weak@;
    let mut scored: Vec<(usize, &'a ResolvedItem)> = Vec::new();
    let mut i: usize = 0;
    proof {
        assert(catalog@.items.take(0) =~= Seq::<ResolvedItemView>::empty());
        reveal(Seq::filter);
    }
    while i < items.len()
        invariant
            i <= items@.len(),
            crate::content::resolved_views(items@) == catalog@.items,
            pred == adaptive_filter(language),
            w == weak@,
            forall|k: int| 0 <= k < scored@.len() ==> #[trigger] scored@[k].0 == weak_score(scored@[k].1@, language, w),
            forall|v: ResolvedItemView| scored_views(scored@).contains(v) <==> (catalog@.items.take(i as int).filter(pred).contains(v)
                && (w.len() > 0 ==> weak_score(v, language, w) > 0)),
        decreases items@.len() - i,
    {
        let item = &items[i];
        let ghost prefix = catalog@.items.take(i as int);
        proof {
            assert(item@ == catalog@.items[i as int]);
            assert(catalog@.items.take(i + 1) =~= prefix.push(item@));
            prefix.lemma_filter_push(item@, pred);
        }
        let ghost before = scored@;
        if item.language == language && (item.kind == ContentKind::Word || item.kind == ContentKind::Sentence) {
            let units = key_units(language, item.text.as_str());
            let score = count_weak(&units, weak);
            if weak.len() == 0 || score > 0 {
                scored.push((score, item));
                proof {
                    assert(scored_views(scored@) =~= scored_views(before).push(item@));
                    assert forall|k: int| 0 <= k < scored@.len() implies #[trigger] scored@[k].0 == weak_score(
                        scored@[k].1@,
                        language,
                        w,
                    ) by {
                        if k < before.len() {
                            assert(scored@[k] == before[k]);
                        }
                    }
                }
            }
        }
        proof {
            let f_old = prefix.filter(pred);
            let f_new = catalog@.items.take(i + 1).filter(pred);
            assert forall|v: ResolvedItemView| scored_views(scored@).contains(v) <==> (f_new.contains(v) && (w.len() > 0
                ==> weak_score(v, language, w) > 0)) by {
                if scored_views(scored@).contains(v) {
                    let k = choose|k: int| 0 <= k < scored_views(scored@).len() && scored_views(scored@)[k] == v;
                    if k < before.len() {
                        assert(scored_views(before)[k] == v);
                        assert(scored_views(before).contains(v));
                        let m = choose|m: int| 0 <= m < f_old.len() && f_old[m] == v;
                        assert(f_new[m] == v);
                    } else {
                        assert(f_new[f_new.len() - 1] == v);
                    }
                }
                if f_new.contains(v) && (w.len() > 0 ==> weak_score(v, language, w) > 0) {
                    let m = choose|m: int| 0 <= m < f_new.len() && f_new[m] == v;
                    if m < f_old.len() {
                        assert(f_old[m] == v);
                        assert(scored_views(before).contains(v));
                        let k = choose|k: int| 0 <= k < scored_views(before).len() && scored_views(before)[k] == v;
                        assert(scored_views(scored@)[k] == v);
                    } else {
                        assert(v == item@);
                        if w.len() == 0 {
                            lemma_no_weak_key_scores_zero(key_units_spec(language, item@.text), w);
                        }
                        assert(scored_views(scored@)[scored@.len() - 1] == v);
                    }
                }
            }
        }
        i = i + 1;
    }
    proof {
        assert(catalog@.items.take(items@.len() as int) =~= catalog@.items);
    }
    let sorted = rank_sort(&scored, Ghost(language), Ghost(w));
    let ghost sv = scored_views(sorted@);
    let n = sorted.len();
    let mut out: Vec<&'a ResolvedItem> = Vec::new();
    if weak.len() == 0 {
        let mut k: usize = 0;
        while k < n
            invariant
                n == sorted@.len(),
                sv == scored_views(sorted@),
                k <= n,
                item_views(out@) == sv.take(k as int),
            decreases n - k,
        {
            let ghost old_out = out@;
            out.push(sorted[k].1);
            proof {
                assert(item_views(out@) =~= item_views(old_out).push(sorted@[k as int].1@));
                assert(sv[k as int] == sorted@[k as int].1@);
                assert(sv.take(k + 1) =~= sv.take(k as int).push(sv[k as int]));
                assert(item_views(out@) =~= sv.take(k + 1));
            }
            k = k + 1;
        }
        let ghost unshuffled = out@;
        let _ = shuffle_seeded(seed, usize::BITS, &mut out);
        proof {
            assert(sv.take(n as int) =~= sv);
            assert forall|a: int, b: int| 0 <= a < b < sv.len() implies !text_lt(sv[b].id, sv[a].id) by {
                lemma_no_weak_key_scores_zero(key_units_spec(language, sv[a].text), w);
                lemma_no_weak_key_scores_zero(key_units_spec(language, sv[b].text), w);
                assert(!ranks_before(sv[b], sv[a], language, w));
            }
            assert(sorted_by_item_id(sv));
            let order = shuffled_by(seed, sv.len(), usize::BITS).0;
            assert(item_views(out@) =~= permuted(sv, order));
            assert(forall|v: ResolvedItemView| sv.contains(v) <==> adaptive_pool(catalog@, language).contains(v));
        }
        return out;
    }
    let mut start: usize = 0;
    let mut state: u64 = seed;
    while start < n
        invariant
            n == sorted@.len(),
            sv == scored_views(sorted@),
            w == weak@,
            start <= n,
            forall|k: int| 0 <= k < sorted@.len() ==> #[trigger] sorted@[k].0 == weak_score(sorted@[k].1@, language, w),
            item_views(out@) + shuffled_runs(sv, language, w, state, start as int) == shuffled_runs(sv, language, w, seed, 0),
        decreases n - start,
    {
        let end = run_end(&sorted, start, Ghost(language), Ghost(w));
        let mut run = copy_run(&sorted, start, end);
        let ghost run_view = item_views(run@);
        let ghost prior_state = state;
        if end - start > 1 {
            state = shuffle_seeded(state, usize::BITS, &mut run);
            proof {
                let order = shuffled_by(prior_state, run_view.len(), usize::BITS).0;
                assert(item_views(run@) =~= permuted(run_view, order));
            }
        }
        let ghost before = out@;
        append_items(&mut out, &run);
        proof {
            lemma_run_end_from(sv, language, w, start as int, start + 1);
            assert(shuffled_runs(sv, language, w, prior_state, start as int) == item_views(run@) + shuffled_runs(
                sv,
                language,
                w,
                state,
                end as int,
            ));
            assert(item_views(out@) + shuffled_runs(sv, language, w, state, end as int) =~= item_views(before)
                + shuffled_runs(sv, language, w, prior_state, start as int));
        }
        start = end;
    }
    proof {
        assert(shuffled_runs(sv, language, w, state, n as int) =~= Seq::<ResolvedItemView>::empty());
        assert(item_views(out@) =~= shuffled_runs(sv, language, w, seed, 0));
        assert(forall|v: ResolvedItemView| sv.contains(v) <==> (adaptive_pool(catalog@, language).contains(v)
            && weak_score(v, language, w) > 0));
        assert(ranked(sv, language, w));
    }
    out
}

/// The weak keys a history points at: the keys of the first three (or fewer) of the weak keys
/// ([`weak_keys_of`]) of its per-key tally in a language, for keys attempted at least ten
/// times.
pub open spec fn weakest_of(r: Seq<char>, sessions: Seq<SessionEntry>, language: Language) -> bool {
    exists|counts: Seq<KeyCount>, wk: Seq<KeyCount>|
        #[trigger] tallies(counts, language_entries(sessions, language, sessions.len())) && #[trigger] weak_keys_of(wk, counts, 10)
            && r == wk.take(if wk.len() < 3 {
            wk.len() as int
        } else {
            3
        }).map_values(|k: KeyCount| k.key)
}

/// The weak keys of a history in a language; see [`weakest_of`].
pub fn weakest_keys(sessions: &[SessionEntry], language: Language) -> (r: Vec<char>)
    ensures
        weakest_of(r@, sessions@, language),
{
    let counts = intended_key_counts(sessions, language);
    let wk = weak_keys(counts.as_slice(), 10);
    let take = if wk.len() < 3 {
        wk.len()
    } else {
        3
    };
    let mut r: Vec<char> = Vec::new();
    let mut k: usize = 0;
    while k < take
        invariant
            take <= wk@.len(),
            k <= take,
            r@ == wk@.take(k as int).map_values(|c: KeyCount| c.key),
        decreases take - k,
    {
        r.push(wk[k].key);
        proof {
            assert(wk@.take(k + 1).map_values(|c: KeyCount| c.key) =~= wk@.take(k as int).map_values(
                |c: KeyCount| c.key,
            ).push(wk@[k as int].key));
        }
        k = k + 1;
    }
    proof {
        assert(tallies(counts@, language_entries(sessions@, language, sessions@.len())));
        assert(weak_keys_of(wk@, counts@, 10));
    }
    r
}

/// The candidates of weak-key practice in a language: the weak keys of the history
/// ([`weakest_of`]) ranking the words and sentences ([`adaptive_order`]).
pub fn adaptive_candidates<'a>(
    catalog: &'a ContentCatalog,
    sessions: &[SessionEntry],
    language: Language,
    seed: u64,
) -> (r: Vec<&'a ResolvedItem>)
    ensures
        exists|weak: Seq<char>|
            #[trigger] weakest_of(weak, sessions@, language) && adaptive_order(
                item_views(r@),
                adaptive_pool(catalog@, language),
                language,
                weak,
                seed,
            ),
{
    let weak = weakest_keys(sessions, language);
    let r = rank_candidates(catalog, &weak, language, seed);
    proof {
        assert(weakest_of(weak@, sessions@, language));
    }
    r
}

} // verus!
