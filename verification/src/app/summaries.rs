//! The content screen's list of packs: one summary per pack, for the enabled packs of the
//! catalog and the valid disabled packs, ordered by pack ID.
use super::{ContentPackSummary, ContentProvenance};
use crate::content::{
    CatalogView, ContentCatalog, ContentKind, ContentPack, ContentPackView, ResolvedItem,
    ResolvedItemView, SourceMeta, SourceMetaView, clone_strings, error_views, opt_view,
    pack_errors, resolve_spec, resolved, resolved_views, validate_pack,
};
use crate::model::Language;
use crate::text::{
    lemma_text_lt_total, lemma_text_lt_transitive, str_eq, str_lt, string_views, text_lt,
};
use vstd::prelude::*;

verus! {

/// The model of a [`ContentProvenance`].
pub struct ProvenanceView {
    pub item_id: Option<Seq<char>>,
    pub source: SourceMetaView,
}

impl View for ContentProvenance {
    type V = ProvenanceView;

    open spec fn view(&self) -> ProvenanceView {
        ProvenanceView { item_id: opt_view(self.item_id), source: self.source@ }
    }
}

/// The model of a [`ContentPackSummary`].
pub struct PackSummaryView {
    pub id: Seq<char>,
    pub sample_item_id: Seq<char>,
    pub provenance: Seq<ProvenanceView>,
    pub language: Language,
    pub items: int,
    pub licenses: Seq<Seq<char>>,
    pub kinds: Seq<ContentKind>,
    pub enabled: bool,
    pub built_in: bool,
}

/// The views of a list of provenance entries.
pub open spec fn provenance_views(v: Seq<ContentProvenance>) -> Seq<ProvenanceView> {
    v.map_values(|p: ContentProvenance| p@)
}

impl View for ContentPackSummary {
    type V = PackSummaryView;

    open spec fn view(&self) -> PackSummaryView {
        PackSummaryView {
            id: self.id@,
            sample_item_id: self.sample_item_id@,
            provenance: provenance_views(self.provenance@),
            language: self.language,
            items: self.items as int,
            licenses: string_views(self.licenses@),
            kinds: self.kinds@,
            enabled: self.enabled,
            built_in: self.built_in,
        }
    }
}

/// The views of a list of summaries.
pub open spec fn summary_views(v: Seq<ContentPackSummary>) -> Seq<PackSummaryView> {
    v.map_values(|s: ContentPackSummary| s@)
}

/// The summary that a pack's first item opens.
pub open spec fn fresh_summary(item: ResolvedItemView, enabled: bool, built_in: bool) -> PackSummaryView {
    PackSummaryView {
        id: item.pack_id,
        sample_item_id: item.id,
        provenance: Seq::empty(),
        language: item.language,
        items: 0,
        licenses: Seq::empty(),
        kinds: Seq::empty(),
        enabled,
        built_in,
    }
}

/// A provenance entry records this source for an item.
pub open spec fn records_item_source(p: ProvenanceView, source: SourceMetaView) -> bool {
    p.item_id is Some && p.source == source
}

/// Some item already recorded this source.
pub open spec fn has_item_provenance(prov: Seq<ProvenanceView>, source: SourceMetaView) -> bool {
    exists|i: int| 0 <= i < prov.len() && #[trigger] records_item_source(prov[i], source)
}

/// A summary with one more item counted: the item's source is recorded with its ID unless
/// an earlier item recorded the same source, and its license and kind are added when new.
pub open spec fn counted(s: PackSummaryView, item: ResolvedItemView) -> PackSummaryView {
    PackSummaryView {
        items: s.items + 1,
        provenance: if has_item_provenance(s.provenance, item.source) {
            s.provenance
        } else {
            s.provenance.push(ProvenanceView { item_id: Some(item.id), source: item.source })
        },
        licenses: if s.licenses.contains(item.source.license) {
            s.licenses
        } else {
            s.licenses.push(item.source.license)
        },
        kinds: if s.kinds.contains(item.kind) {
            s.kinds
        } else {
            s.kinds.push(item.kind)
        },
        ..s
    }
}

/// The summaries by pack ID with one more item counted under its pack.
pub open spec fn with_item(
    m: Map<Seq<char>, PackSummaryView>,
    item: ResolvedItemView,
    enabled: bool,
    built_in: bool,
) -> Map<Seq<char>, PackSummaryView> {
    let base = if m.contains_key(item.pack_id) {
        m[item.pack_id]
    } else {
        fresh_summary(item, enabled, built_in)
    };
    m.insert(item.pack_id, counted(base, item))
}

/// A summary with its pack's own source: the license added when new, and the source recorded
/// without an item.
pub open spec fn with_pack_source(s: PackSummaryView, source: SourceMetaView) -> PackSummaryView {
    PackSummaryView {
        licenses: if s.licenses.contains(source.license) {
            s.licenses
        } else {
            s.licenses.push(source.license)
        },
        provenance: s.provenance.push(ProvenanceView { item_id: None, source }),
        ..s
    }
}

/// The summaries of the first `n` items of a catalog; a pack is built in unless it is a user
/// pack.
pub open spec fn enabled_map(c: CatalogView, n: nat) -> Map<Seq<char>, PackSummaryView>
    decreases n,
{
    if n == 0 {
        Map::empty()
    } else {
        with_item(
            enabled_map(c, (n - 1) as nat),
            c.items[n - 1],
            true,
            !c.user_packs.contains_key(c.items[n - 1].pack_id),
        )
    }
}

/// The summaries of a catalog's packs, each with its pack's source.
pub open spec fn enabled_summaries(c: CatalogView) -> Map<Seq<char>, PackSummaryView> {
    let m = enabled_map(c, c.items.len());
    Map::new(
        |k: Seq<char>| m.contains_key(k),
        |k: Seq<char>|
            if c.pack_sources.contains_key(k) {
                with_pack_source(m[k], c.pack_sources[k])
            } else {
                m[k]
            },
    )
}

/// The summaries with the first `n` items of a disabled pack counted.
pub open spec fn disabled_items(
    m: Map<Seq<char>, PackSummaryView>,
    items: Seq<ResolvedItemView>,
    n: nat,
) -> Map<Seq<char>, PackSummaryView>
    decreases n,
{
    if n == 0 {
        m
    } else {
        with_item(disabled_items(m, items, (n - 1) as nat), items[n - 1], false, false)
    }
}

/// The summaries with a disabled pack added, when it is valid and no pack of its ID is
/// listed yet.
pub open spec fn disabled_step(m: Map<Seq<char>, PackSummaryView>, p: ContentPackView) -> Map<
    Seq<char>,
    PackSummaryView,
> {
    if pack_errors(p).len() > 0 || m.contains_key(p.id) {
        m
    } else {
        let m2 = disabled_items(m, resolve_spec(p), p.items.len());
        if m2.contains_key(p.id) {
            m2.insert(p.id, with_pack_source(m2[p.id], p.source))
        } else {
            m2
        }
    }
}

/// The summaries of a catalog and of the first `n` disabled packs.
pub open spec fn all_summaries(c: CatalogView, disabled: Seq<ContentPackView>, n: nat) -> Map<
    Seq<char>,
    PackSummaryView,
>
    decreases n,
{
    if n == 0 {
        enabled_summaries(c)
    } else {
        disabled_step(all_summaries(c, disabled, (n - 1) as nat), disabled[n - 1])
    }
}

/// The kinds present, in the order in which kinds are listed.
pub open spec fn ordered_kinds(ks: Seq<ContentKind>) -> Seq<ContentKind> {
    (if ks.contains(ContentKind::Word) {
        seq![ContentKind::Word]
    } else {
        seq![]
    }) + (if ks.contains(ContentKind::Sentence) {
        seq![ContentKind::Sentence]
    } else {
        seq![]
    }) + (if ks.contains(ContentKind::Quote) {
        seq![ContentKind::Quote]
    } else {
        seq![]
    }) + (if ks.contains(ContentKind::Text) {
        seq![ContentKind::Text]
    } else {
        seq![]
    })
}

/// Texts in strictly increasing order.
pub open spec fn sorted_texts(s: Seq<Seq<char>>) -> bool {
    forall|i: int, j: int| 0 <= i < j < s.len() ==> text_lt(s[i], s[j])
}

/// A listed summary: the collected summary with its licenses sorted and its kinds in listing
/// order.
pub open spec fn finished(v: PackSummaryView, s: PackSummaryView) -> bool {
    &&& v.id == s.id
    &&& v.sample_item_id == s.sample_item_id
    &&& v.provenance == s.provenance
    &&& v.language == s.language
    &&& v.items == s.items
    &&& v.enabled == s.enabled
    &&& v.built_in == s.built_in
    &&& sorted_texts(v.licenses)
    &&& forall|x: Seq<char>| v.licenses.contains(x) <==> s.licenses.contains(x)
    &&& v.kinds == ordered_kinds(s.kinds)
}

/// A list of summaries holds the summaries of a map, each once, keyed by pack ID.
pub open spec fn keyed(v: Seq<PackSummaryView>, m: Map<Seq<char>, PackSummaryView>) -> bool {
    &&& forall|i: int, j: int| 0 <= i < v.len() && 0 <= j < v.len() && i != j ==> v[i].id != v[j].id
    &&& forall|i: int| 0 <= i < v.len() ==> #[trigger] m.contains_key(v[i].id) && m[v[i].id] == v[i]
    &&& forall|k: Seq<char>| m.contains_key(k) ==> exists|i: int| 0 <= i < v.len() && v[i].id == k
}

/// The views of a list of packs.
pub open spec fn pack_views(v: Seq<ContentPack>) -> Seq<ContentPackView> {
    v.map_values(|p: ContentPack| p@)
}

/// Whether two sources are the same.
fn same_source(a: &SourceMeta, b: &SourceMeta) -> (r: bool)
    ensures
        r == (a@ == b@),
{
    str_eq(a.author.as_str(), b.author.as_str()) && str_eq(
        a.source_id.as_str(),
        b.source_id.as_str(),
    ) && str_eq(a.source_url.as_str(), b.source_url.as_str()) && str_eq(
        a.license.as_str(),
        b.license.as_str(),
    ) && str_eq(a.license_url.as_str(), b.license_url.as_str()) && a.modified == b.modified
        && str_eq(a.retrieved_at.as_str(), b.retrieved_at.as_str())
}

/// Whether a list of strings holds a string.
fn contains_text(v: &Vec<String>, x: &str) -> (r: bool)
    ensures
        r == string_views(v@).contains(x@),
{
    let mut found = false;
    for i in 0..v.len()
        invariant
            found == exists|k: int| 0 <= k < i && #[trigger] string_views(v@)[k] == x@,
    {
        proof {
            assert(string_views(v@)[i as int] == v@[i as int]@);
        }
        if str_eq(v[i].as_str(), x) {
            found = true;
        }
    }
    proof {
        if string_views(v@).contains(x@) {
            let k = choose|k: int| 0 <= k < string_views(v@).len() && string_views(v@)[k] == x@;
            assert(string_views(v@)[k] == x@);
        }
    }
    found
}

/// Whether a list of kinds holds a kind.
fn contains_kind(v: &Vec<ContentKind>, x: ContentKind) -> (r: bool)
    ensures
        r == v@.contains(x),
{
    let mut found = false;
    for i in 0..v.len()
        invariant
            found == exists|k: int| 0 <= k < i && v@[k] == x,
    {
        if v[i] == x {
            found = true;
        }
    }
    found
}

/// Whether an item already recorded a source.
fn item_provenance_known(prov: &Vec<ContentProvenance>, source: &SourceMeta) -> (r: bool)
    ensures
        r == has_item_provenance(provenance_views(prov@), source@),
{
    let mut found = false;
    for i in 0..prov.len()
        invariant
            found == exists|k: int|
                0 <= k < i && #[trigger] records_item_source(provenance_views(prov@)[k], source@),
    {
        proof {
            assert(provenance_views(prov@)[i as int] == prov@[i as int]@);
            assert(records_item_source(provenance_views(prov@)[i as int], source@) == (
            prov@[i as int].item_id is Some && prov@[i as int].source@ == source@));
        }
        if prov[i].item_id.is_some() && same_source(&prov[i].source, source) {
            found = true;
        }
    }
    found
}

/// Counts an item into a summary.
fn count_item(s: &mut ContentPackSummary, item: &ResolvedItem)
    requires
        old(s).items < usize::MAX,
    ensures
        final(s)@ == counted(old(s)@, item@),
{
    s.items = s.items + 1;
    if !item_provenance_known(&s.provenance, &item.source) {
        let entry = ContentProvenance { item_id: Some(item.id.clone()), source: item.source.clone() };
        proof {
            assert(provenance_views(s.provenance@.push(entry)) =~= provenance_views(s.provenance@).push(
                entry@,
            ));
        }
        s.provenance.push(entry);
    }
    if !contains_text(&s.licenses, item.source.license.as_str()) {
        let license = item.source.license.clone();
        proof {
            assert(string_views(s.licenses@.push(license)) =~= string_views(s.licenses@).push(
                license@,
            ));
        }
        s.licenses.push(license);
    }
    if !contains_kind(&s.kinds, item.kind) {
        s.kinds.push(item.kind);
    }
}

/// Adds a pack's own source to a summary.
fn add_pack_source(s: &mut ContentPackSummary, source: &SourceMeta)
    ensures
        final(s)@ == with_pack_source(old(s)@, source@),
{
    if !contains_text(&s.licenses, source.license.as_str()) {
        let license = source.license.clone();
        proof {
            assert(string_views(s.licenses@.push(license)) =~= string_views(s.licenses@).push(
                license@,
            ));
        }
        s.licenses.push(license);
    }
    let entry = ContentProvenance { item_id: None, source: source.clone() };
    proof {
        assert(provenance_views(s.provenance@.push(entry)) =~= provenance_views(s.provenance@).push(
            entry@,
        ));
    }
    s.provenance.push(entry);
}

/// The position of the summary of a pack, if it is listed.
fn find_pack(packs: &Vec<ContentPackSummary>, id: &str) -> (r: Option<usize>)
    ensures
        match r {
            Some(i) => i < packs@.len() && packs@[i as int].id@ == id@,
            None => forall|i: int| 0 <= i < packs@.len() ==> packs@[i].id@ != id@,
        },
{
    for i in 0..packs.len()
        invariant
            forall|k: int| 0 <= k < i ==> packs@[k].id@ != id@,
    {
        if str_eq(packs[i].id.as_str(), id) {
            return Some(i);
        }
    }
    None
}

/// Counts an item under its pack, opening the pack's summary if it is not listed yet.
fn add_pack_item(
    packs: &mut Vec<ContentPackSummary>,
    item: &ResolvedItem,
    enabled: bool,
    built_in: bool,
    Ghost(m): Ghost<Map<Seq<char>, PackSummaryView>>,
)
    requires
        keyed(summary_views(old(packs)@), m),
        m.contains_key(item@.pack_id) ==> m[item@.pack_id].items < usize::MAX,
    ensures
        keyed(summary_views(final(packs)@), with_item(m, item@, enabled, built_in)),
{
    let ghost before = summary_views(packs@);
    match find_pack(packs, item.pack_id.as_str()) {
        Some(i) => {
            proof {
                assert(before[i as int] == packs@[i as int]@);
                assert(m[before[i as int].id] == before[i as int]);
            }
            let mut s = packs.remove(i);
            count_item(&mut s, item);
            packs.insert(i, s);
            proof {
                let after = summary_views(packs@);
                assert(after =~= before.update(i as int, s@));
                let m2 = with_item(m, item@, enabled, built_in);
                assert(m[item@.pack_id] == before[i as int]);
                assert(s@ == counted(before[i as int], item@));
                assert forall|k: Seq<char>| m2.contains_key(k) implies exists|j: int|
                    0 <= j < after.len() && after[j].id == k by {
                    if k != item@.pack_id {
                        let j = choose|j: int| 0 <= j < before.len() && before[j].id == k;
                        assert(after[j].id == k);
                    } else {
                        assert(after[i as int].id == k);
                    }
                }
                assert forall|j: int| 0 <= j < after.len() implies #[trigger] m2.contains_key(
                    after[j].id,
                ) && m2[after[j].id] == after[j] by {
                    if j != i {
                        assert(after[j] == before[j]);
                        assert(before[j].id != before[i as int].id);
                        assert(m.contains_key(before[j].id));
                    }
                }
                assert forall|a: int, b: int|
                    0 <= a < after.len() && 0 <= b < after.len() && a != b implies after[a].id
                    != after[b].id by {
                    assert(after[a].id == before[a].id);
                    assert(after[b].id == before[b].id);
                }
            }
        },
        None => {
            let mut s = ContentPackSummary {
                id: item.pack_id.clone(),
                sample_item_id: item.id.clone(),
                provenance: Vec::new(),
                language: item.language,
                items: 0,
                licenses: Vec::new(),
                kinds: Vec::new(),
                enabled,
                built_in,
            };
            proof {
                assert(provenance_views(s.provenance@) =~= Seq::<ProvenanceView>::empty());
                assert(string_views(s.licenses@) =~= Seq::<Seq<char>>::empty());
                assert(s.kinds@ =~= Seq::<ContentKind>::empty());
                assert(s@ == fresh_summary(item@, enabled, built_in));
                assert(!m.contains_key(item@.pack_id)) by {
                    if m.contains_key(item@.pack_id) {
                        let j = choose|j: int| 0 <= j < before.len() && before[j].id == item@.pack_id;
                        assert(packs@[j].id@ == item@.pack_id);
                    }
                }
            }
            count_item(&mut s, item);
            packs.push(s);
            proof {
                let after = summary_views(packs@);
                assert(after =~= before.push(s@));
                let m2 = with_item(m, item@, enabled, built_in);
                assert forall|k: Seq<char>| m2.contains_key(k) implies exists|j: int|
                    0 <= j < after.len() && after[j].id == k by {
                    if k != item@.pack_id {
                        let j = choose|j: int| 0 <= j < before.len() && before[j].id == k;
                        assert(after[j].id == k);
                    } else {
                        assert(after[before.len() as int].id == k);
                    }
                }
                assert forall|j: int| 0 <= j < after.len() implies #[trigger] m2.contains_key(
                    after[j].id,
                ) && m2[after[j].id] == after[j] by {
                    if j < before.len() {
                        assert(after[j] == before[j]);
                        assert(packs@[j].id@ == before[j].id);
                        assert(m.contains_key(before[j].id));
                    }
                }
                assert forall|a: int, b: int|
                    0 <= a < after.len() && 0 <= b < after.len() && a != b implies after[a].id
                    != after[b].id by {
                    if a < before.len() {
                        assert(packs@[a].id@ == before[a].id);
                    }
                    if b < before.len() {
                        assert(packs@[b].id@ == before[b].id);
                    }
                }
            }
        },
    }
}

/// The summaries of a catalog's items, before the packs' own sources, in no particular order.
fn item_summaries(catalog: &ContentCatalog) -> (r: Vec<ContentPackSummary>)
    requires
        catalog.wf(),
    ensures
        keyed(summary_views(r@), enabled_map(catalog@, catalog@.items.len())),
{
    let ghost c = catalog@;
    let items = catalog.items();
    let mut packs: Vec<ContentPackSummary> = Vec::new();
    proof {
        assert(summary_views(packs@) =~= Seq::<PackSummaryView>::empty());
    }
    let mut i: usize = 0;
    while i < items.len()
        invariant
            c == catalog@,
            catalog.wf(),
            resolved_views(items@) == c.items,
            i <= items@.len(),
            keyed(summary_views(packs@), enabled_map(c, i as nat)),
            forall|k: Seq<char>|
                #[trigger] enabled_map(c, i as nat).contains_key(k) ==> enabled_map(
                    c,
                    i as nat,
                )[k].items <= i,
        decreases items.len() - i,
    {
        let item = &items[i];
        proof {
            assert(c.items[i as int] == item@);
        }
        let built_in = catalog.active_user_path(item.pack_id.as_str()).is_none();
        proof {
            let m = enabled_map(c, i as nat);
            if m.contains_key(item@.pack_id) {
                assert(m[item@.pack_id].items <= i);
            }
        }
        add_pack_item(&mut packs, item, true, built_in, Ghost(enabled_map(c, i as nat)));
        proof {
            let m = enabled_map(c, i as nat);
            let m2 = enabled_map(c, (i + 1) as nat);
            assert(c.items[(i + 1) - 1] == item@);
            assert(m2 == with_item(m, item@, true, built_in));
            assert forall|k: Seq<char>| #[trigger] m2.contains_key(k) implies m2[k].items <= i
                + 1 by {
                if k != item@.pack_id {
                    assert(m.contains_key(k));
                    assert(m2[k] == m[k]);
                } else if m.contains_key(k) {
                    assert(m[k].items <= i);
                }
            }
        }
        i = i + 1;
    }
    packs
}

/// The summaries of a catalog's packs, in no particular order.
fn enabled_packs(catalog: &ContentCatalog) -> (r: Vec<ContentPackSummary>)
    requires
        catalog.wf(),
    ensures
        keyed(summary_views(r@), enabled_summaries(catalog@)),
{
    let ghost c = catalog@;
    let mut packs = item_summaries(catalog);
    let ghost m = enabled_map(c, c.items.len());
    let ghost start = summary_views(packs@);
    let mut j: usize = 0;
    while j < packs.len()
        invariant
            c == catalog@,
            catalog.wf(),
            m == enabled_map(c, c.items.len()),
            keyed(start, m),
            summary_views(packs@).len() == start.len(),
            j <= packs@.len(),
            forall|k: int|
                0 <= k < start.len() ==> #[trigger] summary_views(packs@)[k] == if k < j
                    && c.pack_sources.contains_key(start[k].id) {
                    with_pack_source(start[k], c.pack_sources[start[k].id])
                } else {
                    start[k]
                },
        decreases packs.len() - j,
    {
        let ghost before = summary_views(packs@);
        proof {
            assert(before[j as int] == packs@[j as int]@);
        }
        match catalog.pack_source(packs[j].id.as_str()) {
            Some(source) => {
                let mut s = packs.remove(j);
                add_pack_source(&mut s, source);
                packs.insert(j, s);
                proof {
                    assert(summary_views(packs@) =~= before.update(j as int, s@));
                }
            },
            None => {},
        }
        j = j + 1;
    }
    proof {
        let e = enabled_summaries(c);
        let after = summary_views(packs@);
        assert forall|k: int| 0 <= k < after.len() implies #[trigger] e.contains_key(after[k].id)
            && e[after[k].id] == after[k] by {
            assert(after[k].id == start[k].id);
            assert(m.contains_key(start[k].id));
        }
        assert forall|x: Seq<char>| e.contains_key(x) implies exists|k: int|
            0 <= k < after.len() && after[k].id == x by {
            let k = choose|k: int| 0 <= k < start.len() && start[k].id == x;
            assert(after[k].id == start[k].id);
        }
        assert forall|a: int, b: int|
            0 <= a < after.len() && 0 <= b < after.len() && a != b implies after[a].id
            != after[b].id by {
            assert(after[a].id == start[a].id);
            assert(after[b].id == start[b].id);
        }
    }
    packs
}

/// Adds a disabled pack's summary when the pack is valid and not listed yet.
fn add_disabled_pack(
    packs: &mut Vec<ContentPackSummary>,
    pack: &ContentPack,
    Ghost(m): Ghost<Map<Seq<char>, PackSummaryView>>,
)
    requires
        keyed(summary_views(old(packs)@), m),
    ensures
        keyed(summary_views(final(packs)@), disabled_step(m, pack@)),
{
    let errors = validate_pack(pack);
    if errors.len() > 0 {
        return;
    }
    match find_pack(packs, pack.id.as_str()) {
        Some(i) => {
            proof {
                assert(summary_views(packs@)[i as int] == packs@[i as int]@);
            }
            return;
        },
        None => {},
    }
    proof {
        if m.contains_key(pack@.id) {
            let k = choose|k: int|
                0 <= k < summary_views(packs@).len() && summary_views(packs@)[k].id == pack@.id;
            assert(packs@[k].id@ == pack@.id);
        }
    }
    let items = match pack.resolve_items() {
        Ok(items) => items,
        Err(_) => {
            return;
        },
    };
    let ghost rs = resolve_spec(pack@);
    proof {
        assert(rs.len() == pack@.items.len());
        assert(items@.len() == rs.len());
    }
    let mut j: usize = 0;
    while j < items.len()
        invariant
            resolved_views(items@) == rs,
            rs == resolve_spec(pack@),
            rs.len() == pack@.items.len(),
            j <= items@.len(),
            !m.contains_key(pack@.id),
            keyed(summary_views(packs@), disabled_items(m, rs, j as nat)),
            disabled_items(m, rs, j as nat).contains_key(pack@.id) ==> disabled_items(
                m,
                rs,
                j as nat,
            )[pack@.id].items <= j,
        decreases items.len() - j,
    {
        proof {
            assert(rs[j as int] == items@[j as int]@);
            assert(rs[j as int] == resolved(pack@, pack@.items[j as int]));
            let m1 = disabled_items(m, rs, j as nat);
            if m1.contains_key(pack@.id) {
                assert(m1[pack@.id].items <= j);
            }
        }
        add_pack_item(packs, &items[j], false, false, Ghost(disabled_items(m, rs, j as nat)));
        proof {
            let m1 = disabled_items(m, rs, j as nat);
            let m2 = disabled_items(m, rs, (j + 1) as nat);
            assert(m2 == with_item(m1, rs[j as int], false, false));
            if m2.contains_key(pack@.id) {
                if m1.contains_key(pack@.id) {
                    assert(m1[pack@.id].items <= j);
                }
                assert(m2[pack@.id].items <= j + 1);
            }
        }
        j = j + 1;
    }
    match find_pack(packs, pack.id.as_str()) {
        Some(i) => {
            let ghost before = summary_views(packs@);
            proof {
                assert(before[i as int] == packs@[i as int]@);
            }
            let mut s = packs.remove(i);
            add_pack_source(&mut s, &pack.source);
            packs.insert(i, s);
            proof {
                let m2 = disabled_items(m, rs, pack@.items.len());
                let after = summary_views(packs@);
                assert(after =~= before.update(i as int, s@));
                assert(m2.contains_key(pack@.id) && m2[pack@.id] == before[i as int]);
                let m3 = m2.insert(pack@.id, with_pack_source(m2[pack@.id], pack@.source));
                assert(error_views(errors@).len() == 0);
                assert(m3 == disabled_step(m, pack@));
                assert(s@ == with_pack_source(before[i as int], pack@.source));
                assert forall|k: Seq<char>| m3.contains_key(k) implies exists|q: int|
                    0 <= q < after.len() && after[q].id == k by {
                    let q = choose|q: int| 0 <= q < before.len() && before[q].id == k;
                    assert(after[q].id == k);
                }
                assert forall|q: int| 0 <= q < after.len() implies #[trigger] m3.contains_key(
                    after[q].id,
                ) && m3[after[q].id] == after[q] by {
                    if q != i {
                        assert(after[q] == before[q]);
                        assert(before[q].id != before[i as int].id);
                        assert(m2.contains_key(before[q].id));
                    }
                }
                assert forall|a: int, b: int|
                    0 <= a < after.len() && 0 <= b < after.len() && a != b implies after[a].id
                    != after[b].id by {
                    assert(after[a].id == before[a].id);
                    assert(after[b].id == before[b].id);
                }
            }
        },
        None => {
            proof {
                let m2 = disabled_items(m, rs, pack@.items.len());
                if m2.contains_key(pack@.id) {
                    let q = choose|q: int|
                        0 <= q < summary_views(packs@).len() && summary_views(packs@)[q].id
                            == pack@.id;
                    assert(packs@[q].id@ == pack@.id);
                }
            }
        },
    }
}

/// Sorts distinct texts, dropping repeats.
fn sort_texts(v: Vec<String>) -> (r: Vec<String>)
    ensures
        sorted_texts(string_views(r@)),
        forall|x: Seq<char>| string_views(r@).contains(x) <==> string_views(v@).contains(x),
{
    let ghost input = string_views(v@);
    let mut rest = v;
    let mut out: Vec<String> = Vec::new();
    let ghost mut i: int = 0;
    proof {
        assert(string_views(out@) =~= Seq::<Seq<char>>::empty());
        assert(string_views(rest@) =~= input.skip(0));
    }
    while rest.len() > 0
        invariant
            0 <= i <= input.len(),
            string_views(rest@) == input.skip(i),
            sorted_texts(string_views(out@)),
            forall|y: Seq<char>| string_views(out@).contains(y) <==> input.take(i).contains(y),
        decreases rest.len(),
    {
        let ghost before = string_views(out@);
        proof {
            assert(forall|y: Seq<char>| before.contains(y) <==> input.take(i).contains(y));
        }
        let ghost rest_views = string_views(rest@);
        let ghost old_rest = rest@;
        let x = rest.remove(0);
        proof {
            assert(rest_views == input.skip(i));
            assert(rest_views.len() == old_rest.len());
            assert(i < input.len());
            assert(rest_views[0] == x@);
            assert(input.skip(i)[0] == input[i]);
            assert(input[i] == x@);
            assert(rest@ == old_rest.remove(0));
            assert(string_views(rest@) =~= rest_views.skip(1));
            assert(input.skip(i).skip(1) =~= input.skip(i + 1));
            assert(string_views(rest@) =~= input.skip(i + 1));
            assert(input.take(i + 1) =~= input.take(i).push(x@));
        }
        if !contains_text(&out, x.as_str()) {
            let mut q: usize = 0;
            while q < out.len() && !str_lt(x.as_str(), out[q].as_str())
                invariant
                    before == string_views(out@),
                    q <= out@.len(),
                    !before.contains(x@),
                    forall|r: int| 0 <= r < q ==> text_lt(#[trigger] before[r], x@),
                decreases out.len() - q,
            {
                proof {
                    assert(before[q as int] == out@[q as int]@);
                    lemma_text_lt_total(x@, before[q as int]);
                    assert(before[q as int] != x@);
                }
                q = q + 1;
            }
            proof {
                if q < out@.len() {
                    assert(before[q as int] == out@[q as int]@);
                    assert(text_lt(x@, before[q as int]));
                }
            }
            out.insert(q, x);
            proof {
                let after = string_views(out@);
                assert(after =~= before.insert(q as int, input[i]));
                assert forall|a: int, b: int| 0 <= a < b < after.len() implies text_lt(
                    after[a],
                    after[b],
                ) by {
                    if b < q {
                    } else if b == q {
                        assert(after[a] == before[a]);
                    } else if a < q {
                        assert(after[b] == before[b - 1]);
                        if b - 1 > q {
                            lemma_text_lt_transitive(x@, before[q as int], before[b - 1]);
                        }
                        lemma_text_lt_transitive(before[a], x@, before[b - 1]);
                    } else if a == q {
                        assert(after[b] == before[b - 1]);
                        if b - 1 > q {
                            lemma_text_lt_transitive(x@, before[q as int], before[b - 1]);
                        }
                    } else {
                        assert(after[a] == before[a - 1]);
                        assert(after[b] == before[b - 1]);
                    }
                }
                assert forall|y: Seq<char>| after.contains(y) implies input.take(i + 1).contains(
                    y,
                ) by {
                    let k = choose|k: int| 0 <= k < after.len() && after[k] == y;
                    if k == q {
                        assert(input.take(i + 1)[i] == y);
                    } else {
                        if k < q {
                            assert(before[k] == y);
                        } else {
                            assert(before[k - 1] == y);
                        }
                        assert(before.contains(y));
                        let t = choose|t: int| 0 <= t < i && #[trigger] input.take(i)[t] == y;
                        assert(input.take(i + 1)[t] == y);
                    }
                }
                assert forall|y: Seq<char>| input.take(i + 1).contains(y) implies after.contains(
                    y,
                ) by {
                    let t = choose|t: int| 0 <= t < i + 1 && #[trigger] input.take(i + 1)[t] == y;
                    if t == i {
                        assert(after[q as int] == y);
                    } else {
                        assert(input.take(i)[t] == y);
                        assert(input.take(i).contains(y));
                        assert(before.contains(y));
                        let k = choose|k: int| 0 <= k < before.len() && before[k] == y;
                        if k < q {
                            assert(after[k] == y);
                        } else {
                            assert(after[k + 1] == y);
                        }
                    }
                }
            }
        } else {
            proof {
                assert forall|y: Seq<char>|
                    before.contains(y) <==> input.take(i + 1).contains(y) by {
                    if input.take(i + 1).contains(y) {
                        let t = choose|t: int| 0 <= t < i + 1 && #[trigger] input.take(i + 1)[t] == y;
                        if t < i {
                            assert(input.take(i)[t] == y);
                        }
                    }
                    if before.contains(y) {
                        assert(input.take(i).contains(y));
                        let t = choose|t: int| 0 <= t < i && #[trigger] input.take(i)[t] == y;
                        assert(input.take(i + 1)[t] == y);
                    }
                }
            }
        }
        proof {
            i = i + 1;
        }
    }
    proof {
        assert(input.skip(i).len() == 0);
        assert(input.take(i) =~= input);
    }
    out
}

/// The kinds present, in listing order.
fn order_kinds(kinds: &Vec<ContentKind>) -> (r: Vec<ContentKind>)
    ensures
        r@ == ordered_kinds(kinds@),
{
    let mut out: Vec<ContentKind> = Vec::new();
    let ghost k = kinds@;
    if contains_kind(kinds, ContentKind::Word) {
        out.push(ContentKind::Word);
    }
    let ghost a = out@;
    if contains_kind(kinds, ContentKind::Sentence) {
        out.push(ContentKind::Sentence);
    }
    let ghost b = out@;
    if contains_kind(kinds, ContentKind::Quote) {
        out.push(ContentKind::Quote);
    }
    let ghost c = out@;
    if contains_kind(kinds, ContentKind::Text) {
        out.push(ContentKind::Text);
    }
    proof {
        assert(out@ =~= ordered_kinds(k));
    }
    out
}

/// Sorts a summary's licenses and puts its kinds in listing order.
fn finish_summary(s: ContentPackSummary) -> (r: ContentPackSummary)
    ensures
        finished(r@, s@),
{
    let kinds = order_kinds(&s.kinds);
    let licenses = sort_texts(s.licenses);
    ContentPackSummary {
        id: s.id,
        sample_item_id: s.sample_item_id,
        provenance: s.provenance,
        language: s.language,
        items: s.items,
        licenses,
        kinds,
        enabled: s.enabled,
        built_in: s.built_in,
    }
}

/// Summaries in strictly increasing order of pack ID.
pub open spec fn sorted_by_id(v: Seq<PackSummaryView>) -> bool {
    forall|i: int, j: int| 0 <= i < j < v.len() ==> text_lt(v[i].id, v[j].id)
}

/// Every summary of a list is listed in a finished form, and only those.
pub open spec fn lists_finished(v: Seq<PackSummaryView>, m: Map<Seq<char>, PackSummaryView>) -> bool {
    &&& forall|i: int|
        0 <= i < v.len() ==> #[trigger] m.contains_key(v[i].id) && finished(v[i], m[v[i].id])
    &&& forall|k: Seq<char>| m.contains_key(k) ==> exists|i: int| 0 <= i < v.len() && v[i].id == k
}

/// Inserting an element where everything before it is smaller and the element at its place
/// is larger keeps a list sorted by ID.
proof fn lemma_insert_keeps_order(before: Seq<PackSummaryView>, q: int, x: PackSummaryView)
    requires
        0 <= q <= before.len(),
        sorted_by_id(before),
        forall|r: int| 0 <= r < q ==> text_lt(#[trigger] before[r].id, x.id),
        q < before.len() ==> text_lt(x.id, before[q].id),
    ensures
        sorted_by_id(before.insert(q, x)),
{
    let after = before.insert(q, x);
    assert forall|a: int, b: int| 0 <= a < b < after.len() implies text_lt(
        after[a].id,
        after[b].id,
    ) by {
        if b < q {
        } else if b == q {
            assert(after[a] == before[a]);
        } else if a < q {
            assert(after[b] == before[b - 1]);
            if b - 1 > q {
                lemma_text_lt_transitive(x.id, before[q].id, before[b - 1].id);
            }
            lemma_text_lt_transitive(before[a].id, x.id, before[b - 1].id);
        } else if a == q {
            assert(after[b] == before[b - 1]);
            if b - 1 > q {
                lemma_text_lt_transitive(x.id, before[q].id, before[b - 1].id);
            }
        } else {
            assert(after[a] == before[a - 1]);
            assert(after[b] == before[b - 1]);
        }
    }
}

/// Every element of `out` is one of the first `i` elements of `input`.
pub open spec fn drawn_from(out: Seq<PackSummaryView>, input: Seq<PackSummaryView>, i: int) -> bool {
    forall|r: int| 0 <= r < out.len() ==> exists|j: int| 0 <= j < i && #[trigger] out[r] == input[j]
}

/// Every one of the first `i` elements of `input` is an element of `out`.
pub open spec fn covers(out: Seq<PackSummaryView>, input: Seq<PackSummaryView>, i: int) -> bool {
    forall|j: int| 0 <= j < i ==> exists|r: int| 0 <= r < out.len() && out[r] == #[trigger] input[j]
}

/// Inserting the next input element keeps the output holding exactly the inputs read so far.
proof fn lemma_insert_keeps_members(
    before: Seq<PackSummaryView>,
    q: int,
    input: Seq<PackSummaryView>,
    i: int,
)
    requires
        0 <= q <= before.len(),
        0 <= i < input.len(),
        drawn_from(before, input, i),
        covers(before, input, i),
    ensures
        drawn_from(before.insert(q, input[i]), input, i + 1),
        covers(before.insert(q, input[i]), input, i + 1),
{
    let after = before.insert(q, input[i]);
    assert forall|r: int| 0 <= r < after.len() implies exists|j: int|
        0 <= j < i + 1 && #[trigger] after[r] == input[j] by {
        if r < q {
            assert(after[r] == before[r]);
        } else if r > q {
            assert(after[r] == before[r - 1]);
        } else {
            assert(after[r] == input[i]);
        }
    }
    assert forall|j: int| 0 <= j < i + 1 implies exists|r: int|
        0 <= r < after.len() && after[r] == #[trigger] input[j] by {
        if j < i {
            let r = choose|r: int| 0 <= r < before.len() && before[r] == input[j];
            if r < q {
                assert(after[r] == input[j]);
            } else {
                assert(after[r + 1] == input[j]);
            }
        } else {
            assert(after[q] == input[j]);
        }
    }
}

/// Puts summaries with distinct IDs in order of ID.
fn sort_by_id(v: Vec<ContentPackSummary>) -> (r: Vec<ContentPackSummary>)
    requires
        forall|i: int, j: int|
            0 <= i < v@.len() && 0 <= j < v@.len() && i != j ==> v@[i].id@ != v@[j].id@,
    ensures
        sorted_by_id(summary_views(r@)),
        drawn_from(summary_views(r@), summary_views(v@), v@.len() as int),
        covers(summary_views(r@), summary_views(v@), v@.len() as int),
{
    let ghost input = summary_views(v@);
    let mut rest = v;
    let mut out: Vec<ContentPackSummary> = Vec::new();
    let ghost mut i: int = 0;
    proof {
        assert(summary_views(rest@) =~= input.skip(0));
    }
    while rest.len() > 0
        invariant
            0 <= i <= input.len(),
            summary_views(rest@) == input.skip(i),
            forall|a: int, b: int|
                0 <= a < input.len() && 0 <= b < input.len() && a != b ==> input[a].id
                    != input[b].id,
            sorted_by_id(summary_views(out@)),
            drawn_from(summary_views(out@), input, i),
            covers(summary_views(out@), input, i),
        decreases rest.len(),
    {
        let ghost before = summary_views(out@);
        let ghost rest_views = summary_views(rest@);
        let ghost old_rest = rest@;
        let x = rest.remove(0);
        proof {
            assert(rest_views.len() == old_rest.len());
            assert(i < input.len());
            assert(rest_views[0] == x@);
            assert(input.skip(i)[0] == input[i]);
            assert(input[i] == x@);
            assert(summary_views(rest@) =~= rest_views.skip(1));
            assert(input.skip(i).skip(1) =~= input.skip(i + 1));
        }
        let mut q: usize = 0;
        while q < out.len() && !str_lt(x.id.as_str(), out[q].id.as_str())
            invariant
                before == summary_views(out@),
                q <= out@.len(),
                0 <= i < input.len(),
                input[i] == x@,
                forall|a: int, b: int|
                    0 <= a < input.len() && 0 <= b < input.len() && a != b ==> input[a].id
                        != input[b].id,
                drawn_from(before, input, i),
                forall|r: int| 0 <= r < q ==> text_lt(#[trigger] before[r].id, x@.id),
            decreases out.len() - q,
        {
            proof {
                assert(before[q as int] == out@[q as int]@);
                let j = choose|j: int| 0 <= j < i && before[q as int] == input[j];
                assert(input[j].id != input[i].id);
                lemma_text_lt_total(x@.id, before[q as int].id);
            }
            q = q + 1;
        }
        proof {
            if q < out@.len() {
                assert(before[q as int] == out@[q as int]@);
            }
        }
        out.insert(q, x);
        proof {
            let after = summary_views(out@);
            assert(after =~= before.insert(q as int, input[i]));
            lemma_insert_keeps_order(before, q as int, input[i]);
            lemma_insert_keeps_members(before, q as int, input, i);
            i = i + 1;
        }
    }
    proof {
        assert(input.skip(i).len() == 0);
    }
    out
}

/// The content screen's list: a summary of every pack of the catalog, then of every disabled
/// pack (given in the order of their file names) that is valid and whose ID is not listed
/// yet, ordered by pack ID, each with its licenses sorted and its kinds in listing order.
#[verifier::spinoff_prover]
#[verifier::rlimit(30)]
pub fn collect_content_packs(catalog: &ContentCatalog, disabled: Vec<ContentPack>) -> (r: Vec<
    ContentPackSummary,
>)
    requires
        catalog.wf(),
    ensures
        sorted_by_id(summary_views(r@)),
        lists_finished(
            summary_views(r@),
            all_summaries(catalog@, pack_views(disabled@), disabled@.len()),
        ),
{
    let ghost c = catalog@;
    let ghost ds = pack_views(disabled@);
    let mut packs = enabled_packs(catalog);
    for i in 0..disabled.len()
        invariant
            c == catalog@,
            ds == pack_views(disabled@),
            keyed(summary_views(packs@), all_summaries(c, ds, i as nat)),
    {
        proof {
            assert(ds[i as int] == disabled@[i as int]@);
        }
        add_disabled_pack(&mut packs, &disabled[i], Ghost(all_summaries(c, ds, i as nat)));
    }
    let ghost m = all_summaries(c, ds, disabled@.len());
    let ghost start = summary_views(packs@);
    let mut finished_packs: Vec<ContentPackSummary> = Vec::new();
    for s in it: packs.into_iter()
        invariant
            it.seq() == packs@,
            start == summary_views(packs@),
            keyed(start, m),
            finished_packs@.len() == it.index(),
            forall|k: int|
                0 <= k < it.index() ==> #[trigger] summary_views(finished_packs@)[k].id == start[k].id
                    && finished(summary_views(finished_packs@)[k], start[k]),
    {
        let ghost k = it.index();
        proof {
            assert(start[k] == s@);
        }
        let done = finish_summary(s);
        let ghost before = summary_views(finished_packs@);
        finished_packs.push(done);
        proof {
            assert(summary_views(finished_packs@) =~= before.push(done@));
        }
    }
    proof {
        let f = summary_views(finished_packs@);
        assert(f.len() == start.len());
        assert forall|a: int, b: int|
            0 <= a < finished_packs@.len() && 0 <= b < finished_packs@.len() && a != b implies finished_packs@[a].id@
            != finished_packs@[b].id@ by {
            assert(f[a].id == start[a].id);
            assert(f[b].id == start[b].id);
        }
    }
    let sorted = sort_by_id(finished_packs);
    proof {
        let f = summary_views(finished_packs@);
        let r = summary_views(sorted@);
        assert forall|i: int| 0 <= i < r.len() implies #[trigger] m.contains_key(r[i].id) && finished(
            r[i],
            m[r[i].id],
        ) by {
            assert(drawn_from(r, f, f.len() as int));
            let j = choose|j: int| 0 <= j < f.len() && r[i] == f[j];
            assert(f[j].id == start[j].id);
            assert(m.contains_key(start[j].id) && m[start[j].id] == start[j]);
        }
        assert forall|k: Seq<char>| m.contains_key(k) implies exists|i: int|
            0 <= i < r.len() && r[i].id == k by {
            let j = choose|j: int| 0 <= j < start.len() && start[j].id == k;
            assert(f[j].id == k);
            assert(covers(r, f, f.len() as int));
            let i = choose|i: int| 0 <= i < r.len() && r[i] == f[j];
            assert(r[i].id == k);
        }
    }
    sorted
}

/// What `content list` shows of one enabled pack: its language, its number of items, and the
/// licenses and source URLs of its items, each sorted.
pub struct PackListing {
    pub id: String,
    pub language: Language,
    pub items: usize,
    pub licenses: Vec<String>,
    pub sources: Vec<String>,
}

/// The model of a [`PackListing`].
pub struct PackListingView {
    pub id: Seq<char>,
    pub language: Language,
    pub items: int,
    pub licenses: Seq<Seq<char>>,
    pub sources: Seq<Seq<char>>,
}

impl View for PackListing {
    type V = PackListingView;

    open spec fn view(&self) -> PackListingView {
        PackListingView {
            id: self.id@,
            language: self.language,
            items: self.items as int,
            licenses: string_views(self.licenses@),
            sources: string_views(self.sources@),
        }
    }
}

/// An item of pack `id` has this source URL.
pub open spec fn lists_url(item: ResolvedItemView, id: Seq<char>, url: Seq<char>) -> bool {
    item.pack_id == id && item.source.source_url == url
}

/// Some item of pack `id` has this source URL.
pub open spec fn has_item_url(items: Seq<ResolvedItemView>, id: Seq<char>, url: Seq<char>) -> bool {
    exists|k: int| 0 <= k < items.len() && #[trigger] lists_url(items[k], id, url)
}

/// A listing of a pack of the catalog `c`, from its summary `s`.
pub open spec fn listing_of(l: PackListingView, s: PackSummaryView, c: CatalogView) -> bool {
    &&& l.id == s.id
    &&& l.language == s.language
    &&& l.items == s.items
    &&& sorted_texts(l.licenses)
    &&& forall|x: Seq<char>| l.licenses.contains(x) <==> s.licenses.contains(x)
    &&& sorted_texts(l.sources)
    &&& forall|x: Seq<char>| l.sources.contains(x) <==> has_item_url(c.items, s.id, x)
}

/// The views of a list of listings.
pub open spec fn listing_views(v: Seq<PackListing>) -> Seq<PackListingView> {
    v.map_values(|l: PackListing| l@)
}

/// The source URLs of a pack's items, each once, sorted.
fn pack_urls(items: &[ResolvedItem], id: &str) -> (r: Vec<String>)
    ensures
        sorted_texts(string_views(r@)),
        forall|x: Seq<char>|
            string_views(r@).contains(x) <==> has_item_url(resolved_views(items@), id@, x),
{
    let ghost rv = resolved_views(items@);
    let mut urls: Vec<String> = Vec::new();
    for i in 0..items.len()
        invariant
            rv == resolved_views(items@),
            forall|x: Seq<char>|
                string_views(urls@).contains(x) <==> exists|k: int|
                    0 <= k < i && #[trigger] lists_url(rv[k], id@, x),
    {
        let ghost before = string_views(urls@);
        proof {
            assert(forall|x: Seq<char>|
                before.contains(x) <==> exists|k: int|
                    0 <= k < i && #[trigger] lists_url(rv[k], id@, x));
        }
        proof {
            assert(rv[i as int] == items@[i as int]@);
        }
        if str_eq(items[i].pack_id.as_str(), id) && !contains_text(
            &urls,
            items[i].source.source_url.as_str(),
        ) {
            let url = items[i].source.source_url.clone();
            proof {
                assert(url@ == rv[i as int].source.source_url);
                assert(lists_url(rv[i as int], id@, url@));
            }
            urls.push(url);
            proof {
                let after = string_views(urls@);
                assert(after =~= before.push(url@));
                assert forall|x: Seq<char>| after.contains(x) implies exists|k: int|
                    0 <= k < i + 1 && #[trigger] lists_url(rv[k], id@, x) by {
                    let t = choose|t: int| 0 <= t < after.len() && after[t] == x;
                    if t == before.len() {
                        assert(lists_url(rv[i as int], id@, x));
                    } else {
                        assert(before[t] == x);
                        assert(before.contains(x));
                        let k = choose|k: int| 0 <= k < i && #[trigger] lists_url(rv[k], id@, x);
                        assert(lists_url(rv[k], id@, x));
                    }
                }
                assert forall|x: Seq<char>| (exists|k: int|
                    0 <= k < i + 1 && #[trigger] lists_url(rv[k], id@, x)) implies after.contains(x) by {
                    let k = choose|k: int| 0 <= k < i + 1 && #[trigger] lists_url(rv[k], id@, x);
                    if k < i {
                        assert(before.contains(x));
                        let t = choose|t: int| 0 <= t < before.len() && before[t] == x;
                        assert(after[t] == x);
                    } else {
                        assert(x == url@);
                        assert(after[before.len() as int] == x);
                    }
                }
            }
        } else {
            proof {
                assert forall|x: Seq<char>| before.contains(x) <==> exists|k: int|
                    0 <= k < i + 1 && #[trigger] lists_url(rv[k], id@, x) by {
                    if exists|k: int| 0 <= k < i + 1 && #[trigger] lists_url(rv[k], id@, x) {
                        let k = choose|k: int| 0 <= k < i + 1 && #[trigger] lists_url(rv[k], id@, x);
                        if k == i {
                            assert(before.contains(x));
                        }
                    }
                }
            }
        }
    }
    sort_texts(urls)
}

/// What `content list` shows: one listing per pack of the catalog, ordered by pack ID.
pub fn pack_listings(catalog: &ContentCatalog) -> (r: Vec<PackListing>)
    requires
        catalog.wf(),
    ensures
        forall|i: int, j: int|
            0 <= i < j < r@.len() ==> text_lt(listing_views(r@)[i].id, listing_views(r@)[j].id),
        forall|i: int|
            0 <= i < r@.len() ==> #[trigger] enabled_map(catalog@, catalog@.items.len()).contains_key(
                listing_views(r@)[i].id,
            ) && listing_of(
                listing_views(r@)[i],
                enabled_map(catalog@, catalog@.items.len())[listing_views(r@)[i].id],
                catalog@,
            ),
        forall|k: Seq<char>|
            enabled_map(catalog@, catalog@.items.len()).contains_key(k) ==> exists|i: int|
                0 <= i < r@.len() && listing_views(r@)[i].id == k,
{
    let ghost c = catalog@;
    let ghost m = enabled_map(c, c.items.len());
    let unsorted = item_summaries(catalog);
    let ghost u = summary_views(unsorted@);
    proof {
        assert forall|i: int, j: int|
            0 <= i < unsorted@.len() && 0 <= j < unsorted@.len() && i != j implies unsorted@[i].id@
            != unsorted@[j].id@ by {
            assert(u[i] == unsorted@[i]@);
            assert(u[j] == unsorted@[j]@);
        }
    }
    let packs = sort_by_id(unsorted);
    let ghost p = summary_views(packs@);
    proof {
        assert forall|i: int| 0 <= i < p.len() implies #[trigger] m.contains_key(p[i].id) && m[p[i].id]
            == p[i] by {
            assert(drawn_from(p, u, u.len() as int));
            let j = choose|j: int| 0 <= j < u.len() && p[i] == u[j];
            assert(m.contains_key(u[j].id));
        }
    }
    let items = catalog.items();
    let mut out: Vec<PackListing> = Vec::new();
    let mut k: usize = 0;
    while k < packs.len()
        invariant
            c == catalog@,
            k <= packs@.len(),
            m == enabled_map(c, c.items.len()),
            p == summary_views(packs@),
            resolved_views(items@) == c.items,
            forall|i: int| 0 <= i < p.len() ==> #[trigger] m.contains_key(p[i].id) && m[p[i].id] == p[i],
            out@.len() == k,
            forall|i: int|
                0 <= i < k ==> #[trigger] listing_views(out@)[i].id == p[i].id && listing_of(
                    listing_views(out@)[i],
                    p[i],
                    c,
                ),
        decreases packs.len() - k,
    {
        let s = &packs[k];
        proof {
            assert(p[k as int] == s@);
        }
        let licenses = sort_texts(clone_strings(&s.licenses));
        let sources = pack_urls(items, s.id.as_str());
        let listing = PackListing {
            id: s.id.clone(),
            language: s.language,
            items: s.items,
            licenses,
            sources,
        };
        let ghost before = listing_views(out@);
        out.push(listing);
        proof {
            assert(listing_views(out@) =~= before.push(listing@));
        }
        k = k + 1;
    }
    proof {
        let l = listing_views(out@);
        assert forall|i: int| 0 <= i < l.len() implies #[trigger] m.contains_key(l[i].id)
            && listing_of(l[i], m[l[i].id], c) by {
            assert(l[i].id == p[i].id && listing_of(l[i], p[i], c));
            assert(m.contains_key(p[i].id) && m[p[i].id] == p[i]);
        }
        assert forall|i: int, j: int| 0 <= i < j < l.len() implies text_lt(l[i].id, l[j].id) by {
            assert(l[i].id == p[i].id);
            assert(l[j].id == p[j].id);
        }
        assert forall|key: Seq<char>| m.contains_key(key) implies exists|i: int|
            0 <= i < l.len() && l[i].id == key by {
            let j = choose|j: int| 0 <= j < u.len() && u[j].id == key;
            assert(covers(p, u, u.len() as int));
            let i = choose|i: int| 0 <= i < p.len() && p[i] == u[j];
            assert(l[i].id == key);
        }
    }
    out
}

} // verus!
