//! The catalog of packs that passed validation, and the resolution of their items.
use super::validation::{
    error, error_view, pack_errors, report, validate_builtin_typeability, validate_builtin_words,
    validate_pack,
};
use super::{
    ContentError, ContentErrorView, ContentItem, ContentItemView, ContentKind, ContentPack,
    ContentPackView, ResolvedItem, ResolvedItemView, SourceMeta, SourceMetaView, clone_opt_string,
    clone_strings, error_views, extend_errors, push_error,
};
use crate::collections::{KeyEq, ViewMap, ViewSet};
use crate::model::{Difficulty, Language};
use crate::text::{graphemes, nfc, normalize_nfc, split_graphemes, str_eq};
use std::path::PathBuf;
use vstd::prelude::*;
use vstd::seq_lib::lemma_concat_associative;

verus! {

/// The difficulty that a word without one is given: by its length in graphemes, with
/// thresholds that depend on the language. Other kinds get none.
pub open spec fn fallback_difficulty_spec(language: Language, item: ContentItemView) -> Option<u8> {
    if item.kind != ContentKind::Word {
        None
    } else {
        let n = graphemes(item.text).len();
        Some(
            match language {
                Language::Ko => if n <= 2 {
                    1u8
                } else if n <= 4 {
                    2u8
                } else {
                    3u8
                },
                Language::En => if n <= 4 {
                    1u8
                } else if n <= 8 {
                    2u8
                } else {
                    3u8
                },
            },
        )
    }
}

/// An item resolved against its pack: pack ID and language from the pack, difficulty from
/// the item or else the fallback, and the item's own source or else the pack's.
pub open spec fn resolved(p: ContentPackView, it: ContentItemView) -> ResolvedItemView {
    ResolvedItemView {
        pack_id: p.id,
        id: it.id,
        language: p.language,
        kind: it.kind,
        text: it.text,
        difficulty: match it.difficulty {
            Some(d) => Some(d),
            None => fallback_difficulty_spec(p.language, it),
        },
        tags: it.tags,
        title: it.title,
        source: match it.source {
            Some(s) => s,
            None => p.source,
        },
    }
}

/// The items of a pack, resolved, in order.
pub open spec fn resolve_spec(p: ContentPackView) -> Seq<ResolvedItemView> {
    p.items.map_values(|it: ContentItemView| resolved(p, it))
}

/// The views of a list of resolved items.
pub open spec fn resolved_views(v: Seq<ResolvedItem>) -> Seq<ResolvedItemView> {
    v.map_values(|r: ResolvedItem| r@)
}

/// The difficulty a word is given when its item declares none.
fn fallback_difficulty(language: Language, item: &ContentItem) -> (r: Option<u8>)
    ensures
        r == fallback_difficulty_spec(language, item@),
{
    if item.kind != ContentKind::Word {
        return None;
    }
    let clusters = split_graphemes(item.text.as_str());
    let length = clusters.len();
    assert(crate::text::string_views(clusters@).len() == clusters@.len());
    Some(
        match language {
            Language::Ko => if length <= 2 {
                1
            } else if length <= 4 {
                2
            } else {
                3
            },
            Language::En => if length <= 4 {
                1
            } else if length <= 8 {
                2
            } else {
                3
            },
        },
    )
}

impl ContentPack {
    /// The pack's items with everything they inherit from the pack filled in.
    /// It never fails; the `Result` is kept for callers that treat resolution as fallible.
    pub fn resolve_items(&self) -> (r: Result<Vec<ResolvedItem>, ContentError>)
        ensures
            r is Ok,
            resolved_views(r->Ok_0@) == resolve_spec(self@),
    {
        let mut out: Vec<ResolvedItem> = Vec::new();
        for i in 0..self.items.len()
            invariant
                out@.len() == i,
                forall|j: int| 0 <= j < i ==> #[trigger] out@[j]@ == resolved(self@, self@.items[j]),
        {
            let item = &self.items[i];
            assert(self@.items[i as int] == item@);
            let difficulty = match item.difficulty {
                Some(d) => Some(d),
                None => fallback_difficulty(self.language, item),
            };
            let source = match &item.source {
                Some(s) => s.clone(),
                None => self.source.clone(),
            };
            out.push(
                ResolvedItem {
                    pack_id: self.id.clone(),
                    id: item.id.clone(),
                    language: self.language,
                    kind: item.kind,
                    text: item.text.clone(),
                    difficulty,
                    tags: clone_strings(&item.tags),
                    title: clone_opt_string(&item.title),
                    source,
                },
            );
        }
        assert(resolved_views(out@) =~= resolve_spec(self@));
        Ok(out)
    }
}

/// The key under which the catalog remembers a normalized text: its language and kind too.
#[derive(Debug)]
pub struct TextKey {
    pub language: Language,
    pub kind: ContentKind,
    pub text: String,
}

impl View for TextKey {
    type V = (Language, ContentKind, Seq<char>);

    open spec fn view(&self) -> (Language, ContentKind, Seq<char>) {
        (self.language, self.kind, self.text@)
    }
}

impl KeyEq for TextKey {
    fn key_eq(&self, other: &Self) -> (r: bool) {
        self.language == other.language && self.kind == other.kind && String::eq(
            &self.text,
            &other.text,
        )
    }

    fn key_clone(&self) -> (r: Self) {
        TextKey { language: self.language, kind: self.kind, text: self.text.clone() }
    }
}

/// The catalog of every pack that passed validation, with indexes of pack IDs, item IDs and
/// normalized texts, each pack's source, and the file of each user pack.
pub struct ContentCatalog {
    items: Vec<ResolvedItem>,
    pack_ids: ViewSet<String>,
    item_ids: ViewSet<String>,
    normalized_texts: ViewSet<TextKey>,
    pack_sources: ViewMap<String, SourceMeta>,
    user_pack_paths: ViewMap<String, PathBuf>,
}

/// The mathematical model of [`ContentCatalog`].
pub struct CatalogView {
    pub items: Seq<ResolvedItemView>,
    pub pack_ids: Set<Seq<char>>,
    pub item_ids: Set<Seq<char>>,
    pub normalized_texts: Set<(Language, ContentKind, Seq<char>)>,
    pub pack_sources: Map<Seq<char>, SourceMetaView>,
    pub user_packs: Map<Seq<char>, PathBuf>,
}

impl View for ContentCatalog {
    type V = CatalogView;

    closed spec fn view(&self) -> CatalogView {
        CatalogView {
            items: resolved_views(self.items@),
            pack_ids: self.pack_ids.set(),
            item_ids: self.item_ids.set(),
            normalized_texts: self.normalized_texts.set(),
            pack_sources: self.pack_sources.map().map_values(|s: SourceMeta| s@),
            user_packs: self.user_pack_paths.map(),
        }
    }
}

/// Whether an item has this language and kind.
pub open spec fn of_kind(language: Language, kind: ContentKind) -> spec_fn(ResolvedItemView) -> bool {
    |x: ResolvedItemView| x.language == language && x.kind == kind
}

/// Whether an item has this language and one of these kinds.
pub open spec fn of_any_kind(language: Language, kinds: Seq<ContentKind>) -> spec_fn(ResolvedItemView) -> bool {
    |x: ResolvedItemView| x.language == language && kinds.contains(x.kind)
}

/// The items of a language counted kind by kind, over a list of kinds.
pub open spec fn summed_counts(items: Seq<ResolvedItemView>, language: Language, kinds: Seq<ContentKind>) -> nat
    decreases kinds.len(),
{
    if kinds.len() == 0 {
        0
    } else {
        summed_counts(items, language, kinds.drop_last()) + items.filter(of_kind(language, kinds.last())).len()
    }
}

/// Filtering by either of two predicates that never hold together keeps as many items as
/// filtering by each, added.
proof fn lemma_filter_split(
    items: Seq<ResolvedItemView>,
    either: spec_fn(ResolvedItemView) -> bool,
    p: spec_fn(ResolvedItemView) -> bool,
    q: spec_fn(ResolvedItemView) -> bool,
)
    requires
        forall|x: ResolvedItemView| #[trigger] either(x) == (p(x) || q(x)),
        forall|x: ResolvedItemView| !(#[trigger] p(x) && q(x)),
    ensures
        items.filter(either).len() == items.filter(p).len() + items.filter(q).len(),
    decreases items.len(),
{
    reveal(Seq::filter);
    if items.len() > 0 {
        lemma_filter_split(items.drop_last(), either, p, q);
    }
}

/// Counting the items of a language over several distinct kinds is counting them kind by
/// kind and adding: with no kind there are none, and with one it is the count of that kind.
pub proof fn lemma_count_any_sums(items: Seq<ResolvedItemView>, language: Language, kinds: Seq<ContentKind>)
    requires
        kinds.no_duplicates(),
    ensures
        items.filter(of_any_kind(language, kinds)).len() == summed_counts(items, language, kinds),
        kinds.len() == 0 ==> items.filter(of_any_kind(language, kinds)).len() == 0,
        kinds.len() == 1 ==> items.filter(of_any_kind(language, kinds)).len() == items.filter(
            of_kind(language, kinds[0]),
        ).len(),
    decreases kinds.len(),
{
    if kinds.len() == 1 {
        assert(kinds.drop_last().len() == 0);
    }
    if kinds.len() == 0 {
        reveal(Seq::filter);
        assert(items.filter(of_any_kind(language, kinds)).len() == 0) by {
            lemma_filter_none(items, of_any_kind(language, kinds));
        }
    } else {
        let rest = kinds.drop_last();
        let last = kinds.last();
        assert(rest.no_duplicates()) by {
            assert forall|i: int, j: int| 0 <= i < rest.len() && 0 <= j < rest.len() && i != j implies rest[i] != rest[j] by {
                assert(rest[i] == kinds[i] && rest[j] == kinds[j]);
            }
        }
        lemma_count_any_sums(items, language, rest);
        assert forall|x: ResolvedItemView| #[trigger] of_any_kind(language, kinds)(x) == (of_any_kind(language, rest)(x) || of_kind(language, last)(x)) by {
            if kinds.contains(x.kind) {
                let i = choose|i: int| 0 <= i < kinds.len() && kinds[i] == x.kind;
                if i < kinds.len() - 1 {
                    assert(rest[i] == x.kind);
                }
            }
            if rest.contains(x.kind) {
                let i = choose|i: int| 0 <= i < rest.len() && rest[i] == x.kind;
                assert(kinds[i] == x.kind);
            }
            if x.kind == last {
                assert(kinds[kinds.len() - 1] == x.kind);
            }
        }
        assert forall|x: ResolvedItemView| !(#[trigger] of_any_kind(language, rest)(x) && of_kind(language, last)(x)) by {
            if rest.contains(x.kind) && x.kind == last {
                let i = choose|i: int| 0 <= i < rest.len() && rest[i] == x.kind;
                assert(kinds[i] == kinds[kinds.len() - 1]);
            }
        }
        lemma_filter_split(items, of_any_kind(language, kinds), of_any_kind(language, rest), of_kind(language, last));
    }
}

/// Adding a pack that validates (which has at least one item) makes its ID known, with an
/// item of it; removing a pack leaves neither its ID nor any item of it.
pub proof fn lemma_known_packs_have_items(c: CatalogView, p: ContentPackView, id: Seq<char>)
    requires
        pack_errors(p).len() == 0,
    ensures
        inserted(c, p).pack_ids.contains(p.id),
        exists|i: int|
            0 <= i < inserted(c, p).items.len() && (#[trigger] inserted(c, p).items[i]).pack_id == p.id,
        !removed(c, id).pack_ids.contains(id),
        forall|i: int| 0 <= i < removed(c, id).items.len() ==> (#[trigger] removed(c, id).items[i]).pack_id != id,
{
    assert(crate::content::validation::header_errors(p).len() == 0);
    assert(p.items.len() > 0);
    let n = c.items.len();
    assert(inserted(c, p).items[n as int] == resolve_spec(p)[0]);
    assert(resolve_spec(p)[0] == resolved(p, p.items[0]));
    let pred = |r: ResolvedItemView| r.pack_id != id;
    assert forall|i: int| 0 <= i < removed(c, id).items.len() implies (#[trigger] removed(c, id).items[i]).pack_id != id by {
        c.items.lemma_filter_pred(pred, i);
    }
}

/// A pack is in the catalog exactly when some item of the catalog belongs to it.
pub open spec fn packs_have_items(c: CatalogView) -> bool {
    forall|id: Seq<char>|
        #[trigger] c.pack_ids.contains(id) <==> exists|i: int|
            0 <= i < c.items.len() && c.items[i].pack_id == id
}

/// The empty catalog has no pack and no item.
pub proof fn lemma_empty_catalog_packs_have_items()
    ensures
        packs_have_items(empty_catalog()),
{
}

/// Adding a pack that validates, or removing a pack, keeps every known pack with an item and
/// every item with a known pack.
pub proof fn lemma_packs_have_items_kept(c: CatalogView, p: ContentPackView, id: Seq<char>)
    requires
        packs_have_items(c),
    ensures
        pack_errors(p).len() == 0 ==> packs_have_items(inserted(c, p)),
        packs_have_items(removed(c, id)),
{
    if pack_errors(p).len() == 0 {
        lemma_known_packs_have_items(c, p, id);
        let d = inserted(c, p);
        let n = c.items.len();
        assert forall|x: Seq<char>| #[trigger] d.pack_ids.contains(x) <==> exists|i: int|
            0 <= i < d.items.len() && d.items[i].pack_id == x by {
            if d.pack_ids.contains(x) && x != p.id {
                assert(c.pack_ids.contains(x));
                let i = choose|i: int| 0 <= i < c.items.len() && c.items[i].pack_id == x;
                assert(d.items[i] == c.items[i]);
            }
            if exists|i: int| 0 <= i < d.items.len() && d.items[i].pack_id == x {
                let i = choose|i: int| 0 <= i < d.items.len() && d.items[i].pack_id == x;
                if i < n {
                    assert(d.items[i] == c.items[i]);
                    assert(c.pack_ids.contains(x));
                } else {
                    assert(d.items[i] == resolve_spec(p)[i - n]);
                    assert(resolve_spec(p)[i - n] == resolved(p, p.items[i - n]));
                }
            }
        }
    }
    let r = removed(c, id);
    let pred = |x: ResolvedItemView| x.pack_id != id;
    assert forall|x: Seq<char>| #[trigger] r.pack_ids.contains(x) <==> exists|i: int|
        0 <= i < r.items.len() && r.items[i].pack_id == x by {
        if r.pack_ids.contains(x) {
            assert(c.pack_ids.contains(x));
            let i = choose|i: int| 0 <= i < c.items.len() && c.items[i].pack_id == x;
            c.items.lemma_filter_contains(pred, i);
            let j = choose|j: int| 0 <= j < r.items.len() && r.items[j] == c.items[i];
            assert(r.items[j].pack_id == x);
        }
        if exists|i: int| 0 <= i < r.items.len() && r.items[i].pack_id == x {
            let i = choose|i: int| 0 <= i < r.items.len() && r.items[i].pack_id == x;
            c.items.lemma_filter_pred(pred, i);
            assert(r.items.contains(r.items[i]));
            c.items.lemma_filter_contains_rev(pred, r.items[i]);
            let j = choose|j: int| 0 <= j < c.items.len() && c.items[j] == r.items[i];
            assert(c.items[j].pack_id == x);
            assert(c.pack_ids.contains(x));
        }
    }
}

/// Loading user packs keeps every known pack with an item and every item with a known pack.
pub proof fn lemma_load_packs_have_items(c: CatalogView, reads: Seq<PackReadView>, n: nat)
    requires
        packs_have_items(c),
        n <= reads.len(),
    ensures
        packs_have_items(load_spec(c, reads, n).0),
    decreases n,
{
    if n > 0 {
        lemma_load_packs_have_items(c, reads, (n - 1) as nat);
        let prior = load_spec(c, reads, (n - 1) as nat);
        match reads[n - 1] {
            PackReadView::Parsed { pack, path } => {
                lemma_packs_have_items_kept(prior.0, pack, pack.id);
            },
            _ => {},
        }
    }
}

/// A catalog built from the built-in packs never holds two items with the same ID, and
/// indexes every item's ID.
pub proof fn lemma_builtins_distinct_ids(sources: Seq<(Seq<char>, ContentPackView)>, n: nat)
    requires
        n <= sources.len(),
    ensures
        build_builtins(sources, n) matches Ok(c) ==> distinct_item_ids(c),
    decreases n,
{
    reveal(builtin_step);
    if n == 0 {
        assert(empty_catalog().items.len() == 0);
    } else {
        lemma_builtins_distinct_ids(sources, (n - 1) as nat);
        match build_builtins(sources, (n - 1) as nat) {
            Ok(c) => {
                let p = sources[n - 1].1;
                if builtin_errors(c, p).len() == 0 {
                    assert(pack_errors(p).len() == 0);
                    assert(conflict_errors(c, p).len() == 0);
                    lemma_insert_keeps_item_ids_distinct(c, p);
                }
            },
            Err(_) => {},
        }
    }
}

/// A catalog built from the built-in packs has every known pack with an item and every item
/// with a known pack.
pub proof fn lemma_builtins_packs_have_items(sources: Seq<(Seq<char>, ContentPackView)>, n: nat)
    requires
        n <= sources.len(),
    ensures
        build_builtins(sources, n) matches Ok(c) ==> packs_have_items(c),
    decreases n,
{
    reveal(builtin_step);
    if n > 0 {
        lemma_builtins_packs_have_items(sources, (n - 1) as nat);
        match build_builtins(sources, (n - 1) as nat) {
            Ok(c) => {
                lemma_packs_have_items_kept(c, sources[n - 1].1, sources[n - 1].1.id);
            },
            Err(_) => {},
        }
    }
}

/// The invariant of a catalog view: every item belongs to a known pack, every known pack has
/// a source, and every user pack is a known pack.
pub open spec fn catalog_inv(c: CatalogView) -> bool {
    &&& forall|i: int| 0 <= i < c.items.len() ==> c.pack_ids.contains(#[trigger] c.items[i].pack_id)
    &&& c.pack_sources.dom() == c.pack_ids
    &&& c.user_packs.dom().subset_of(c.pack_ids)
}

/// The catalog with no packs.
pub open spec fn empty_catalog() -> CatalogView {
    CatalogView {
        items: seq![],
        pack_ids: Set::empty(),
        item_ids: Set::empty(),
        normalized_texts: Set::empty(),
        pack_sources: Map::empty(),
        user_packs: Map::empty(),
    }
}

/// The key under which a resolved item's normalized text is remembered.
pub open spec fn text_key(r: ResolvedItemView) -> (Language, ContentKind, Seq<char>) {
    (r.language, r.kind, nfc(r.text))
}

/// The catalog after a pack is added: its resolved items appended and every index extended.
pub open spec fn inserted(c: CatalogView, p: ContentPackView) -> CatalogView {
    let new_items = resolve_spec(p);
    CatalogView {
        items: c.items + new_items,
        pack_ids: c.pack_ids.insert(p.id),
        item_ids: c.item_ids.union(new_items.map_values(|r: ResolvedItemView| r.id).to_set()),
        normalized_texts: c.normalized_texts.union(
            new_items.map_values(|r: ResolvedItemView| text_key(r)).to_set(),
        ),
        pack_sources: c.pack_sources.insert(p.id, p.source),
        user_packs: c.user_packs,
    }
}

/// Some item of pack `id` has this item ID.
pub open spec fn gone_id(items: Seq<ResolvedItemView>, id: Seq<char>, x: Seq<char>) -> bool {
    exists|j: int| 0 <= j < items.len() && #[trigger] items[j].pack_id == id && items[j].id == x
}

/// Some item of pack `id` has this language, kind and (raw) text.
pub open spec fn gone_text(
    items: Seq<ResolvedItemView>,
    id: Seq<char>,
    x: (Language, ContentKind, Seq<char>),
) -> bool {
    exists|j: int|
        0 <= j < items.len() && #[trigger] items[j].pack_id == id && (
        items[j].language,
        items[j].kind,
        items[j].text,
    ) == x
}

/// The items that do not belong to pack `id`.
pub open spec fn kept_items(items: Seq<ResolvedItemView>, id: Seq<char>) -> Seq<
    ResolvedItemView,
> {
    items.filter(|r: ResolvedItemView| r.pack_id != id)
}

/// The catalog after pack `id` is removed: its items dropped, their IDs and (raw) texts
/// dropped from the indexes, and the pack's ID, source and file forgotten.
pub open spec fn removed(c: CatalogView, id: Seq<char>) -> CatalogView {
    CatalogView {
        items: kept_items(c.items, id),
        pack_ids: c.pack_ids.remove(id),
        item_ids: Set::new(|x: Seq<char>| c.item_ids.contains(x) && !gone_id(c.items, id, x)),
        normalized_texts: Set::new(
            |x: (Language, ContentKind, Seq<char>)|
                c.normalized_texts.contains(x) && !gone_text(c.items, id, x),
        ),
        pack_sources: c.pack_sources.remove(id),
        user_packs: c.user_packs.remove(id),
    }
}

/// One more item of a sequence adds exactly that item to what a removal takes away.
pub proof fn lemma_gone_step(items: Seq<ResolvedItemView>, id: Seq<char>, i: int)
    requires
        0 <= i < items.len(),
    ensures
        forall|x: Seq<char>|
            gone_id(items.take(i + 1), id, x) == (gone_id(items.take(i), id, x) || (items[i].pack_id
                == id && items[i].id == x)),
        forall|x: (Language, ContentKind, Seq<char>)|
            gone_text(items.take(i + 1), id, x) == (gone_text(items.take(i), id, x) || (
            items[i].pack_id == id && (items[i].language, items[i].kind, items[i].text) == x)),
{
    let a = items.take(i);
    let b = items.take(i + 1);
    assert forall|x: Seq<char>|
        gone_id(b, id, x) == (gone_id(a, id, x) || (items[i].pack_id == id && items[i].id == x)) by {
        if gone_id(b, id, x) {
            let j = choose|j: int| 0 <= j < b.len() && #[trigger] b[j].pack_id == id && b[j].id == x;
            if j < i {
                assert(a[j] == b[j]);
            }
        }
        if gone_id(a, id, x) {
            let j = choose|j: int| 0 <= j < a.len() && #[trigger] a[j].pack_id == id && a[j].id == x;
            assert(b[j] == a[j]);
        }
        if items[i].pack_id == id && items[i].id == x {
            assert(b[i] == items[i]);
        }
    }
    assert forall|x: (Language, ContentKind, Seq<char>)|
        gone_text(b, id, x) == (gone_text(a, id, x) || (items[i].pack_id == id && (
        items[i].language,
        items[i].kind,
        items[i].text,
    ) == x)) by {
        if gone_text(b, id, x) {
            let j = choose|j: int|
                0 <= j < b.len() && #[trigger] b[j].pack_id == id && (
                b[j].language,
                b[j].kind,
                b[j].text,
            ) == x;
            if j < i {
                assert(a[j] == b[j]);
            }
        }
        if gone_text(a, id, x) {
            let j = choose|j: int|
                0 <= j < a.len() && #[trigger] a[j].pack_id == id && (
                a[j].language,
                a[j].kind,
                a[j].text,
            ) == x;
            assert(b[j] == a[j]);
        }
        if items[i].pack_id == id && (items[i].language, items[i].kind, items[i].text) == x {
            assert(b[i] == items[i]);
        }
    }
}

/// A user pack file as it was read: either the reason it could not be read or parsed, with
/// the ID that its file name suggests, or the pack it holds and its path.
pub enum PackRead {
    Unreadable { fallback_id: String, message: String },
    Parsed { pack: ContentPack, path: PathBuf },
}

/// The model of a [`PackRead`].
pub enum PackReadView {
    Unreadable { fallback_id: Seq<char>, message: Seq<char> },
    Parsed { pack: ContentPackView, path: PathBuf },
}

impl View for PackRead {
    type V = PackReadView;

    open spec fn view(&self) -> PackReadView {
        match self {
            PackRead::Unreadable { fallback_id, message } => PackReadView::Unreadable {
                fallback_id: fallback_id@,
                message: message@,
            },
            PackRead::Parsed { pack, path } => PackReadView::Parsed { pack: pack@, path: *path },
        }
    }
}

/// The views of a list of reads.
pub open spec fn read_views(v: Seq<PackRead>) -> Seq<PackReadView> {
    v.map_values(|r: PackRead| r@)
}

/// A catalog with the user packs, and the warnings about those that were left out.
pub struct CatalogLoad {
    pub catalog: ContentCatalog,
    pub warnings: Vec<ContentError>,
}

/// Taking one read user pack into a catalog and its warnings.
pub open spec fn load_step(
    state: (CatalogView, Seq<ContentErrorView>),
    read: PackReadView,
) -> (CatalogView, Seq<ContentErrorView>) {
    match read {
        PackReadView::Unreadable { fallback_id, message } => (
            state.0,
            state.1.push(error_view(fallback_id, None, "file"@, message)),
        ),
        PackReadView::Parsed { pack, path } => {
            let errors = pack_errors(pack) + conflict_errors(state.0, pack);
            if errors.len() == 0 {
                (with_user_path(inserted(state.0, pack), pack.id, path), state.1)
            } else {
                (state.0, state.1 + errors)
            }
        },
    }
}

/// The catalog and the warnings after the first `n` reads.
pub open spec fn load_spec(c: CatalogView, reads: Seq<PackReadView>, n: nat) -> (
    CatalogView,
    Seq<ContentErrorView>,
)
    decreases n,
{
    if n == 0 {
        (c, Seq::empty())
    } else {
        load_step(load_spec(c, reads, (n - 1) as nat), reads[n - 1])
    }
}

/// The catalog with a user pack's file recorded.
pub open spec fn with_user_path(c: CatalogView, id: Seq<char>, path: PathBuf) -> CatalogView {
    CatalogView { user_packs: c.user_packs.insert(id, path), ..c }
}

/// The views of the built-in packs and the paths they were read from.
pub open spec fn builtin_views(sources: Seq<(String, ContentPack)>) -> Seq<
    (Seq<char>, ContentPackView),
> {
    sources.map_values(|s: (String, ContentPack)| (s.0@, s.1@))
}

/// Every error that keeps a built-in pack out of a catalog.
pub open spec fn builtin_errors(c: CatalogView, p: ContentPackView) -> Seq<ContentErrorView> {
    pack_errors(p) + super::validation::builtin_word_errors(p, p.items.len())
        + super::validation::typeability_errors(p, p.items.len()) + conflict_errors(c, p)
}

/// Adding one built-in pack to a catalog: the extended catalog, or the message that rejects
/// the pack.
#[verifier::opaque]
pub open spec fn builtin_step(c: CatalogView, path: Seq<char>, p: ContentPackView) -> Result<
    CatalogView,
    Seq<char>,
> {
    let errors = builtin_errors(c, p);
    if errors.len() > 0 {
        Err("invalid built-in pack "@ + path + ": "@ + super::validation::joined_errors(errors))
    } else {
        Ok(inserted(c, p))
    }
}

/// The catalog of the first `n` built-in packs, or the message of the first that fails.
pub open spec fn build_builtins(sources: Seq<(Seq<char>, ContentPackView)>, n: nat) -> Result<
    CatalogView,
    Seq<char>,
>
    decreases n,
{
    if n == 0 {
        Ok(empty_catalog())
    } else {
        match build_builtins(sources, (n - 1) as nat) {
            Err(m) => Err(m),
            Ok(c) => builtin_step(c, sources[n - 1].0, sources[n - 1].1),
        }
    }
}

/// A built-in pack that breaks no rule extends the catalog built so far.
pub proof fn lemma_build_accepts(sources: Seq<(Seq<char>, ContentPackView)>, n: nat, c: CatalogView)
    requires
        n < sources.len(),
        build_builtins(sources, n) == Ok::<CatalogView, Seq<char>>(c),
        builtin_errors(c, sources[n as int].1).len() == 0,
    ensures
        build_builtins(sources, n + 1) == Ok::<CatalogView, Seq<char>>(inserted(c, sources[n as int].1)),
{
    reveal(builtin_step);
}

/// A built-in pack that breaks a rule stops the build with its message.
pub proof fn lemma_build_rejects(sources: Seq<(Seq<char>, ContentPackView)>, n: nat, c: CatalogView)
    requires
        n < sources.len(),
        build_builtins(sources, n) == Ok::<CatalogView, Seq<char>>(c),
        builtin_errors(c, sources[n as int].1).len() > 0,
    ensures
        forall|m: nat|
            n < m <= sources.len() ==> build_builtins(sources, m) == Err::<CatalogView, Seq<char>>(
                "invalid built-in pack "@ + sources[n as int].0 + ": "@
                    + super::validation::joined_errors(builtin_errors(c, sources[n as int].1)),
            ),
{
    let msg = "invalid built-in pack "@ + sources[n as int].0 + ": "@
        + super::validation::joined_errors(builtin_errors(c, sources[n as int].1));
    assert forall|m: nat| n < m <= sources.len() implies build_builtins(sources, m) == Err::<
        CatalogView,
        Seq<char>,
    >(msg) by {
        lemma_build_stays_failed(sources, n, c, m);
    }
}

/// Once the build has failed, it stays failed with the same message.
proof fn lemma_build_stays_failed(
    sources: Seq<(Seq<char>, ContentPackView)>,
    n: nat,
    c: CatalogView,
    m: nat,
)
    requires
        n < m <= sources.len(),
        build_builtins(sources, n) == Ok::<CatalogView, Seq<char>>(c),
        builtin_errors(c, sources[n as int].1).len() > 0,
    ensures
        build_builtins(sources, m) == Err::<CatalogView, Seq<char>>(
            "invalid built-in pack "@ + sources[n as int].0 + ": "@
                + super::validation::joined_errors(builtin_errors(c, sources[n as int].1)),
        ),
    decreases m - n,
{
    if m > n + 1 {
        lemma_build_stays_failed(sources, n, c, (m - 1) as nat);
    } else {
        lemma_step_rejects(c, sources[n as int].0, sources[n as int].1);
    }
}

/// A pack that breaks a rule is rejected with its path and every error.
proof fn lemma_step_rejects(c: CatalogView, path: Seq<char>, p: ContentPackView)
    requires
        builtin_errors(c, p).len() > 0,
    ensures
        builtin_step(c, path, p) == Err::<CatalogView, Seq<char>>(
            "invalid built-in pack "@ + path + ": "@ + super::validation::joined_errors(
                builtin_errors(c, p),
            ),
        ),
{
    reveal(builtin_step);
}

/// The conflicts of the first `n` items of a pack with the catalog.
pub open spec fn item_conflicts(c: CatalogView, p: ContentPackView, n: nat) -> Seq<
    ContentErrorView,
>
    decreases n,
{
    if n == 0 {
        seq![]
    } else {
        let it = p.items[n - 1];
        item_conflicts(c, p, (n - 1) as nat) + report(
            c.item_ids.contains(it.id),
            error_view(p.id, Some(it.id), "items.id"@, "duplicate catalog item ID"@),
        ) + report(
            c.normalized_texts.contains((p.language, it.kind, nfc(it.text))),
            error_view(p.id, Some(it.id), "items.text"@, "duplicate normalized catalog text"@),
        )
    }
}

/// Every conflict of a pack with the catalog: its ID, then each item's ID and normalized
/// text (within the pack's language and the item's kind).
pub open spec fn conflict_errors(c: CatalogView, p: ContentPackView) -> Seq<ContentErrorView> {
    report(c.pack_ids.contains(p.id), error_view(p.id, None, "id"@, "duplicate pack ID"@))
        + item_conflicts(c, p, p.items.len())
}

/// Whether an item matches a language, a kind and a difficulty (`Mixed` matches any).
pub open spec fn selects(
    r: ResolvedItemView,
    language: Language,
    kind: ContentKind,
    difficulty: Difficulty,
) -> bool {
    r.language == language && r.kind == kind && match difficulty {
        Difficulty::Easy => r.difficulty == Some(1u8),
        Difficulty::Medium => r.difficulty == Some(2u8),
        Difficulty::Hard => r.difficulty == Some(3u8),
        Difficulty::Mixed => true,
    }
}

/// Filtering keeps a sequence whole when every element passes.
pub proof fn lemma_filter_all<A>(s: Seq<A>, pred: spec_fn(A) -> bool)
    requires
        forall|i: int| 0 <= i < s.len() ==> pred(#[trigger] s[i]),
    ensures
        s.filter(pred) == s,
    decreases s.len(),
{
    reveal(Seq::filter);
    if s.len() > 0 {
        lemma_filter_all(s.drop_last(), pred);
        assert(s.drop_last().push(s.last()) =~= s);
    }
}

/// Filtering empties a sequence when no element passes.
pub proof fn lemma_filter_none<A>(s: Seq<A>, pred: spec_fn(A) -> bool)
    requires
        forall|i: int| 0 <= i < s.len() ==> !pred(#[trigger] s[i]),
    ensures
        s.filter(pred) == Seq::<A>::empty(),
    decreases s.len(),
{
    reveal(Seq::filter);
    if s.len() > 0 {
        lemma_filter_none(s.drop_last(), pred);
    }
}

/// A pack with no conflicts has no item whose ID or normalized text the catalog holds.
pub proof fn lemma_no_item_conflicts(c: CatalogView, p: ContentPackView, n: nat)
    requires
        n <= p.items.len(),
        item_conflicts(c, p, n).len() == 0,
    ensures
        forall|k: int| 0 <= k < n ==> !c.item_ids.contains(#[trigger] p.items[k].id),
        forall|k: int|
            0 <= k < n ==> !c.normalized_texts.contains(
                (p.language, #[trigger] p.items[k].kind, nfc(p.items[k].text)),
            ),
    decreases n,
{
    if n > 0 {
        let it = p.items[n - 1];
        let a = report(
            c.item_ids.contains(it.id),
            error_view(p.id, Some(it.id), "items.id"@, "duplicate catalog item ID"@),
        );
        let b = report(
            c.normalized_texts.contains((p.language, it.kind, nfc(it.text))),
            error_view(p.id, Some(it.id), "items.text"@, "duplicate normalized catalog text"@),
        );
        assert(item_conflicts(c, p, n) == item_conflicts(c, p, (n - 1) as nat) + a + b);
        assert(a.len() == 0 && b.len() == 0);
        lemma_no_item_conflicts(c, p, (n - 1) as nat);
    }
}

/// A pack with no validation errors holds only NFC-normalized texts.
pub proof fn lemma_valid_texts_normalized(p: ContentPackView, n: nat)
    requires
        n <= p.items.len(),
        items_errors_len_zero(p, n),
    ensures
        forall|k: int| 0 <= k < n ==> nfc(#[trigger] p.items[k].text) == p.items[k].text,
{
    lemma_items_errors_empty(p, n);
    assert forall|k: int| 0 <= k < n implies nfc(#[trigger] p.items[k].text) == p.items[k].text by {
        reveal(super::validation::item_text_errors);
        let t = super::validation::item_text_errors(p, k);
        assert(super::validation::item_errors(p, k).len() == 0);
        assert(t.len() == 0);
    }
}

/// When the first `n` items report nothing, no single one of them does.
proof fn lemma_items_errors_empty(p: ContentPackView, n: nat)
    requires
        n <= p.items.len(),
        items_errors_len_zero(p, n),
    ensures
        forall|k: int| 0 <= k < n ==> (#[trigger] super::validation::item_errors(p, k)).len() == 0,
    decreases n,
{
    if n > 0 {
        assert(super::validation::items_errors(p, n) == super::validation::items_errors(
            p,
            (n - 1) as nat,
        ) + super::validation::item_errors(p, n - 1));
        lemma_items_errors_empty(p, (n - 1) as nat);
    }
}

/// The errors of the first `n` items of a pack are empty.
pub open spec fn items_errors_len_zero(p: ContentPackView, n: nat) -> bool {
    super::validation::items_errors(p, n).len() == 0
}

/// Removing a pack right after adding it gives back the catalog it was added to, whenever
/// the pack is valid and conflicts with nothing in that catalog (that is, whenever
/// `validate_candidate` reports no error for it).
pub proof fn lemma_remove_undoes_insert(c: CatalogView, p: ContentPackView)
    requires
        catalog_inv(c),
        pack_errors(p).len() == 0,
        conflict_errors(c, p).len() == 0,
    ensures
        removed(inserted(c, p), p.id) == c,
{
    let r = resolve_spec(p);
    let all = c.items + r;
    let d = inserted(c, p);
    let e = removed(d, p.id);
    assert(!c.pack_ids.contains(p.id));
    assert(item_conflicts(c, p, p.items.len()).len() == 0);
    lemma_no_item_conflicts(c, p, p.items.len());
    assert(items_errors_len_zero(p, p.items.len()));
    lemma_valid_texts_normalized(p, p.items.len());
    let keep = |x: ResolvedItemView| x.pack_id != p.id;
    Seq::filter_distributes_over_add(c.items, r, keep);
    assert forall|i: int| 0 <= i < c.items.len() implies keep(#[trigger] c.items[i]) by {
        assert(c.pack_ids.contains(c.items[i].pack_id));
    }
    lemma_filter_all(c.items, keep);
    lemma_filter_none(r, keep);
    assert(e.items =~= c.items);
    assert(e.pack_ids =~= c.pack_ids);
    assert forall|x: Seq<char>| #[trigger] e.item_ids.contains(x) == c.item_ids.contains(x) by {
        if c.item_ids.contains(x) {
            if gone_id(all, p.id, x) {
                let j = choose|j: int| 0 <= j < all.len() && #[trigger] all[j].pack_id == p.id
                    && all[j].id == x;
                if j < c.items.len() {
                    assert(c.pack_ids.contains(c.items[j].pack_id));
                } else {
                    assert(all[j] == r[j - c.items.len()]);
                    assert(!c.item_ids.contains(p.items[j - c.items.len()].id));
                }
            }
        }
        if d.item_ids.contains(x) && !c.item_ids.contains(x) {
            let ids = r.map_values(|q: ResolvedItemView| q.id);
            assert(ids.to_set().contains(x));
            let k = choose|k: int| 0 <= k < ids.len() && ids[k] == x;
            assert(all[c.items.len() + k] == r[k]);
            assert(all[c.items.len() + k].pack_id == p.id && all[c.items.len() + k].id == x);
            assert(gone_id(all, p.id, x));
        }
    }
    assert(e.item_ids =~= c.item_ids);
    assert forall|x: (Language, ContentKind, Seq<char>)| #[trigger] e.normalized_texts.contains(x)
        == c.normalized_texts.contains(x) by {
        if c.normalized_texts.contains(x) {
            if gone_text(all, p.id, x) {
                let j = choose|j: int|
                    0 <= j < all.len() && #[trigger] all[j].pack_id == p.id && (
                    all[j].language,
                    all[j].kind,
                    all[j].text,
                ) == x;
                if j < c.items.len() {
                    assert(c.pack_ids.contains(c.items[j].pack_id));
                } else {
                    let k = j - c.items.len();
                    assert(all[j] == r[k]);
                    assert(nfc(p.items[k].text) == p.items[k].text);
                    assert(!c.normalized_texts.contains(
                        (p.language, p.items[k].kind, nfc(p.items[k].text)),
                    ));
                }
            }
        }
        if d.normalized_texts.contains(x) && !c.normalized_texts.contains(x) {
            let keys = r.map_values(|q: ResolvedItemView| text_key(q));
            assert(keys.to_set().contains(x));
            let k = choose|k: int| 0 <= k < keys.len() && keys[k] == x;
            assert(all[c.items.len() + k] == r[k]);
            assert(nfc(p.items[k].text) == p.items[k].text);
            assert(all[c.items.len() + k].pack_id == p.id && (
                all[c.items.len() + k].language,
                all[c.items.len() + k].kind,
                all[c.items.len() + k].text,
            ) == x);
            assert(gone_text(all, p.id, x));
        }
    }
    assert(e.normalized_texts =~= c.normalized_texts);
    assert(e.pack_sources =~= c.pack_sources);
    assert(e.user_packs =~= c.user_packs);
}

/// No two items of a catalog share an ID, and the index of item IDs holds every item's ID.
pub open spec fn distinct_item_ids(c: CatalogView) -> bool {
    &&& forall|i: int, j: int| 0 <= i < j < c.items.len() ==> c.items[i].id != c.items[j].id
    &&& forall|i: int| 0 <= i < c.items.len() ==> c.item_ids.contains(#[trigger] c.items[i].id)
}

/// Adding a pack that `validate_candidate` accepts never gives two catalog items the same
/// ID, and keeps every item's ID indexed.
pub proof fn lemma_insert_keeps_item_ids_distinct(c: CatalogView, p: ContentPackView)
    requires
        distinct_item_ids(c),
        pack_errors(p).len() == 0,
        conflict_errors(c, p).len() == 0,
    ensures
        distinct_item_ids(inserted(c, p)),
{
    let r = resolve_spec(p);
    let d = inserted(c, p);
    let n = c.items.len();
    assert(item_conflicts(c, p, p.items.len()).len() == 0);
    lemma_no_item_conflicts(c, p, p.items.len());
    assert(items_errors_len_zero(p, p.items.len()));
    lemma_items_errors_empty(p, p.items.len());
    assert forall|k: int| 0 <= k < p.items.len() implies !super::validation::earlier_id(
        p.items,
        k,
    ) by {
        reveal(super::validation::item_label_errors);
        assert(super::validation::item_errors(p, k).len() == 0);
        assert(super::validation::item_label_errors(p, k).len() == 0);
    }
    assert forall|i: int, j: int| 0 <= i < j < d.items.len() implies d.items[i].id
        != d.items[j].id by {
        if j >= n {
            let b = j - n;
            assert(d.items[j] == r[b]);
            assert(r[b].id == p.items[b].id);
            if i < n {
                assert(d.items[i] == c.items[i]);
                assert(c.item_ids.contains(c.items[i].id));
                assert(!c.item_ids.contains(p.items[b].id));
            } else {
                let a = i - n;
                assert(d.items[i] == r[a]);
                assert(r[a].id == p.items[a].id);
                assert(!super::validation::earlier_id(p.items, b));
                if p.items[a].id == p.items[b].id {
                    assert(super::validation::earlier_id(p.items, b));
                }
            }
        } else {
            assert(d.items[i] == c.items[i]);
            assert(d.items[j] == c.items[j]);
        }
    }
    assert forall|i: int| 0 <= i < d.items.len() implies d.item_ids.contains(
        #[trigger] d.items[i].id,
    ) by {
        if i < n {
            assert(d.items[i] == c.items[i]);
        } else {
            let ids = r.map_values(|q: ResolvedItemView| q.id);
            assert(d.items[i] == r[i - n]);
            assert(ids[i - n] == d.items[i].id);
            assert(ids.contains(d.items[i].id));
        }
    }
}

/// No two catalog items share a language, a kind and a normalized text, and every item's is
/// indexed.
pub open spec fn distinct_texts(c: CatalogView) -> bool {
    &&& forall|i: int, j: int| 0 <= i < j < c.items.len() ==> text_key(c.items[i]) != text_key(c.items[j])
    &&& forall|i: int| 0 <= i < c.items.len() ==> c.normalized_texts.contains(#[trigger] text_key(c.items[i]))
}

/// With no earlier match reported, no item before `n` has this kind and normalized text.
proof fn lemma_no_text_match(items: Seq<ContentItemView>, kind: ContentKind, norm: Seq<char>, n: int)
    requires
        super::validation::last_text_match(items, kind, norm, n) is None,
        n <= items.len(),
    ensures
        forall|j: int| 0 <= j < n ==> !(#[trigger] items[j].kind == kind && nfc(items[j].text) == norm),
    decreases n,
{
    if n > 0 {
        lemma_no_text_match(items, kind, norm, n - 1);
    }
}

/// Adding a pack that `validate_candidate` accepts never gives two catalog items the same
/// language, kind and normalized text, and keeps every item's indexed.
pub proof fn lemma_insert_keeps_texts_distinct(c: CatalogView, p: ContentPackView)
    requires
        distinct_texts(c),
        pack_errors(p).len() == 0,
        conflict_errors(c, p).len() == 0,
    ensures
        distinct_texts(inserted(c, p)),
{
    let r = resolve_spec(p);
    let d = inserted(c, p);
    let n = c.items.len();
    assert(item_conflicts(c, p, p.items.len()).len() == 0);
    lemma_no_item_conflicts(c, p, p.items.len());
    assert(items_errors_len_zero(p, p.items.len()));
    lemma_items_errors_empty(p, p.items.len());
    assert forall|b: int| 0 <= b < p.items.len() implies super::validation::last_text_match(
        p.items,
        p.items[b].kind,
        nfc(p.items[b].text),
        b,
    ) is None by {
        assert(super::validation::item_errors(p, b).len() == 0);
        reveal(super::validation::item_text_errors);
        assert(super::validation::item_text_errors(p, b).len() == 0);
    }
    assert forall|i: int, j: int| 0 <= i < j < d.items.len() implies text_key(d.items[i]) != text_key(
        d.items[j],
    ) by {
        if j >= n {
            let b = j - n;
            assert(d.items[j] == r[b]);
            assert(text_key(r[b]) == (p.language, p.items[b].kind, nfc(p.items[b].text)));
            if i < n {
                assert(d.items[i] == c.items[i]);
                assert(c.normalized_texts.contains(text_key(c.items[i])));
                assert(!c.normalized_texts.contains((p.language, p.items[b].kind, nfc(p.items[b].text))));
            } else {
                let a = i - n;
                assert(d.items[i] == r[a]);
                assert(text_key(r[a]) == (p.language, p.items[a].kind, nfc(p.items[a].text)));
                lemma_no_text_match(p.items, p.items[b].kind, nfc(p.items[b].text), b);
                assert(!(p.items[a].kind == p.items[b].kind && nfc(p.items[a].text) == nfc(p.items[b].text)));
            }
        } else {
            assert(d.items[i] == c.items[i]);
            assert(d.items[j] == c.items[j]);
        }
    }
    assert forall|i: int| 0 <= i < d.items.len() implies d.normalized_texts.contains(
        #[trigger] text_key(d.items[i]),
    ) by {
        if i < n {
            assert(d.items[i] == c.items[i]);
        } else {
            let keys = r.map_values(|q: ResolvedItemView| text_key(q));
            assert(d.items[i] == r[i - n]);
            assert(keys[i - n] == text_key(d.items[i]));
            assert(keys.contains(text_key(d.items[i])));
        }
    }
}

/// A catalog built from the built-in packs never holds two items with the same language,
/// kind and normalized text, and indexes every item's.
pub proof fn lemma_builtins_distinct_texts(sources: Seq<(Seq<char>, ContentPackView)>, n: nat)
    requires
        n <= sources.len(),
    ensures
        build_builtins(sources, n) matches Ok(c) ==> distinct_texts(c),
    decreases n,
{
    reveal(builtin_step);
    if n == 0 {
        assert(empty_catalog().items.len() == 0);
    } else {
        lemma_builtins_distinct_texts(sources, (n - 1) as nat);
        match build_builtins(sources, (n - 1) as nat) {
            Ok(c) => {
                let p = sources[n - 1].1;
                if builtin_errors(c, p).len() == 0 {
                    assert(pack_errors(p).len() == 0);
                    assert(conflict_errors(c, p).len() == 0);
                    lemma_insert_keeps_texts_distinct(c, p);
                }
            },
            Err(_) => {},
        }
    }
}

impl ContentCatalog {
    /// The catalog's indexes are consistent.
    pub closed spec fn wf(&self) -> bool {
        &&& self.pack_ids.wf()
        &&& self.item_ids.wf()
        &&& self.normalized_texts.wf()
        &&& self.pack_sources.wf()
        &&& self.user_pack_paths.wf()
        &&& catalog_inv(self@)
    }

    /// A well-formed catalog keeps the invariant of its view.
    pub proof fn lemma_wf_keeps_invariant(c: &ContentCatalog)
        requires
            c.wf(),
        ensures
            catalog_inv(c@),
    {
    }

    /// An empty catalog.
    pub fn new() -> (r: Self)
        ensures
            r.wf(),
            r@ == empty_catalog(),
    {
        let r = ContentCatalog {
            items: Vec::new(),
            pack_ids: ViewSet::new(),
            item_ids: ViewSet::new(),
            normalized_texts: ViewSet::new(),
            pack_sources: ViewMap::new(),
            user_pack_paths: ViewMap::new(),
        };
        assert(r@.items =~= Seq::<ResolvedItemView>::empty());
        assert(r@.pack_sources =~= Map::<Seq<char>, SourceMetaView>::empty());
        r
    }

    /// Every item in the catalog, in the order the packs were added.
    pub fn items(&self) -> (r: &[ResolvedItem])
        ensures
            resolved_views(r@) == self@.items,
    {
        self.items.as_slice()
    }

    /// Whether a pack with this ID is in the catalog.
    pub fn contains_pack(&self, id: &str) -> (r: bool)
        ensures
            r == self@.pack_ids.contains(id@),
    {
        self.pack_ids.contains(&id.to_owned())
    }

    /// The source of a pack in the catalog.
    pub fn pack_source(&self, id: &str) -> (r: Option<&SourceMeta>)
        requires
            self.wf(),
        ensures
            match r {
                Some(s) => self@.pack_sources.contains_key(id@) && self@.pack_sources[id@] == s@,
                None => !self@.pack_sources.contains_key(id@),
            },
    {
        self.pack_sources.get(&id.to_owned())
    }

    /// The file of an enabled user pack.
    pub fn active_user_path(&self, id: &str) -> (r: Option<&PathBuf>)
        requires
            self.wf(),
        ensures
            match r {
                Some(p) => self@.user_packs.contains_key(id@) && self@.user_packs[id@] == *p,
                None => !self@.user_packs.contains_key(id@),
            },
    {
        self.user_pack_paths.get(&id.to_owned())
    }

    /// The number of items of a language and a kind.
    pub fn count(&self, language: Language, kind: ContentKind) -> (r: usize)
        ensures
            r == self@.items.filter(of_kind(language, kind)).len(),
    {
        let ghost pred = of_kind(language, kind);
        let mut n: usize = 0;
        for i in 0..self.items.len()
            invariant
                n == self@.items.take(i as int).filter(pred).len(),
                n <= i,
                pred == of_kind(language, kind),
        {
            proof {
                self@.items.take(i as int).lemma_filter_push(self@.items[i as int], pred);
                assert(self@.items.take(i + 1) =~= self@.items.take(i as int).push(self@.items[i as int]));
                assert(self.items@[i as int]@ == self@.items[i as int]);
            }
            if self.items[i].language == language && self.items[i].kind == kind {
                n += 1;
            }
        }
        assert(self@.items.take(self.items@.len() as int) =~= self@.items);
        n
    }

    /// The number of items of a language whose kind is one of `kinds`.
    pub fn count_any(&self, language: Language, kinds: &[ContentKind]) -> (r: usize)
        ensures
            r == self@.items.filter(of_any_kind(language, kinds@)).len(),
    {
        let ghost pred = of_any_kind(language, kinds@);
        let mut n: usize = 0;
        for i in 0..self.items.len()
            invariant
                n == self@.items.take(i as int).filter(pred).len(),
                n <= i,
                pred == of_any_kind(language, kinds@),
        {
            proof {
                self@.items.take(i as int).lemma_filter_push(self@.items[i as int], pred);
                assert(self@.items.take(i + 1) =~= self@.items.take(i as int).push(self@.items[i as int]));
                assert(self.items@[i as int]@ == self@.items[i as int]);
            }
            let mut listed = false;
            for k in 0..kinds.len()
                invariant
                    i < self.items@.len(),
                    listed == exists|m: int| 0 <= m < k && kinds@[m] == self.items@[i as int].kind,
            {
                if kinds[k] == self.items[i].kind {
                    listed = true;
                }
            }
            if self.items[i].language == language && listed {
                n += 1;
            }
        }
        assert(self@.items.take(self.items@.len() as int) =~= self@.items);
        n
    }

    /// The items of a language and a kind at a difficulty, in catalog order.
    pub fn select(&self, language: Language, kind: ContentKind, difficulty: Difficulty) -> (r: Vec<
        &ResolvedItem,
    >)
        ensures
            r@.map_values(|x: &ResolvedItem| x@) == self@.items.filter(
                |x: ResolvedItemView| selects(x, language, kind, difficulty),
            ),
    {
        let ghost pred = |x: ResolvedItemView| selects(x, language, kind, difficulty);
        let wanted: Option<u8> = match difficulty {
            Difficulty::Easy => Some(1),
            Difficulty::Medium => Some(2),
            Difficulty::Hard => Some(3),
            Difficulty::Mixed => None,
        };
        let mut out: Vec<&ResolvedItem> = Vec::new();
        for i in 0..self.items.len()
            invariant
                out@.map_values(|x: &ResolvedItem| x@) == self@.items.take(i as int).filter(pred),
                pred == (|x: ResolvedItemView| selects(x, language, kind, difficulty)),
                wanted == match difficulty {
                    Difficulty::Easy => Some(1u8),
                    Difficulty::Medium => Some(2u8),
                    Difficulty::Hard => Some(3u8),
                    Difficulty::Mixed => None,
                },
        {
            proof {
                self@.items.take(i as int).lemma_filter_push(self@.items[i as int], pred);
                assert(self@.items.take(i + 1) =~= self@.items.take(i as int).push(self@.items[i as int]));
                assert(self.items@[i as int]@ == self@.items[i as int]);
            }
            let item = &self.items[i];
            let level_ok = match wanted {
                Some(d) => match item.difficulty {
                    Some(x) => x == d,
                    None => false,
                },
                None => true,
            };
            let ghost before = out@.map_values(|x: &ResolvedItem| x@);
            if item.language == language && item.kind == kind && level_ok {
                out.push(item);
                assert(out@.map_values(|x: &ResolvedItem| x@) =~= before.push(item@));
            }
        }
        assert(self@.items.take(self.items@.len() as int) =~= self@.items);
        out
    }

    /// Every conflict of a pack with the packs already in the catalog.
    pub fn conflicts(&self, pack: &ContentPack) -> (errors: Vec<ContentError>)
        ensures
            error_views(errors@) == conflict_errors(self@, pack@),
    {
        let mut errors: Vec<ContentError> = Vec::new();
        if self.pack_ids.contains(&pack.id) {
            push_error(&mut errors, error(pack, None, "id", "duplicate pack ID"));
        }
        assert(error_views(errors@) =~= report(
            self@.pack_ids.contains(pack@.id),
            error_view(pack@.id, None, "id"@, "duplicate pack ID"@),
        ) + item_conflicts(self@, pack@, 0));
        for i in 0..pack.items.len()
            invariant
                error_views(errors@) == report(
                    self@.pack_ids.contains(pack@.id),
                    error_view(pack@.id, None, "id"@, "duplicate pack ID"@),
                ) + item_conflicts(self@, pack@, i as nat),
        {
            let item = &pack.items[i];
            assert(pack@.items[i as int] == item@);
            let ghost head = report(
                self@.pack_ids.contains(pack@.id),
                error_view(pack@.id, None, "id"@, "duplicate pack ID"@),
            );
            let ghost before = error_views(errors@);
            if self.item_ids.contains(&item.id) {
                push_error(
                    &mut errors,
                    error(pack, Some(item.id.as_str()), "items.id", "duplicate catalog item ID"),
                );
            }
            let key = TextKey {
                language: pack.language,
                kind: item.kind,
                text: normalize_nfc(item.text.as_str()),
            };
            if self.normalized_texts.contains(&key) {
                push_error(
                    &mut errors,
                    error(
                        pack,
                        Some(item.id.as_str()),
                        "items.text",
                        "duplicate normalized catalog text",
                    ),
                );
            }
            proof {
                let it = pack@.items[i as int];
                let a = report(
                    self@.item_ids.contains(it.id),
                    error_view(pack@.id, Some(it.id), "items.id"@, "duplicate catalog item ID"@),
                );
                let b = report(
                    self@.normalized_texts.contains((pack@.language, it.kind, nfc(it.text))),
                    error_view(
                        pack@.id,
                        Some(it.id),
                        "items.text"@,
                        "duplicate normalized catalog text"@,
                    ),
                );
                assert(error_views(errors@) =~= before + a + b);
                lemma_concat_associative(head, item_conflicts(self@, pack@, i as nat), a);
                lemma_concat_associative(head, item_conflicts(self@, pack@, i as nat) + a, b);
            }
        }
        errors
    }

    /// The errors of a candidate pack: its own validation errors, then its conflicts with
    /// the catalog.
    pub fn validate_candidate(&self, pack: &ContentPack) -> (errors: Vec<ContentError>)
        ensures
            error_views(errors@) == pack_errors(pack@) + conflict_errors(self@, pack@),
    {
        let mut errors = validate_pack(pack);
        let more = self.conflicts(pack);
        extend_errors(&mut errors, &more);
        errors
    }

    /// Adds a pack: its resolved items and every index. The pack is not checked; callers
    /// validate it and check it for conflicts first.
    pub fn insert(&mut self, pack: ContentPack)
        requires
            old(self).wf(),
        ensures
            final(self).wf(),
            final(self)@ == inserted(old(self)@, pack@),
    {
        let ghost p = pack@;
        let ghost new_items = resolve_spec(p);
        let mut resolved = match pack.resolve_items() {
            Ok(items) => items,
            Err(_) => Vec::new(),
        };
        assert(resolved_views(resolved@) == new_items);
        let ContentPack { id, source, .. } = pack;
        self.pack_sources.insert(id.clone(), source);
        self.pack_ids.insert(id);
        assert(self.pack_sources.map().map_values(|s: SourceMeta| s@) =~= old(self)@.pack_sources.insert(p.id, p.source));
        let ghost ids = new_items.map_values(|r: ResolvedItemView| r.id);
        let ghost keys = new_items.map_values(|r: ResolvedItemView| text_key(r));
        for i in 0..resolved.len()
            invariant
                self.item_ids.wf(),
                self.normalized_texts.wf(),
                self.pack_ids.wf(),
                self.pack_sources.wf(),
                self.user_pack_paths == old(self).user_pack_paths,
                self.items == old(self).items,
                self.pack_ids.set() == old(self).pack_ids.set().insert(p.id),
                self.pack_sources.map().map_values(|s: SourceMeta| s@) == old(self)@.pack_sources.insert(p.id, p.source),
                resolved_views(resolved@) == new_items,
                ids == new_items.map_values(|r: ResolvedItemView| r.id),
                keys == new_items.map_values(|r: ResolvedItemView| text_key(r)),
                self.item_ids.set() == old(self).item_ids.set().union(ids.take(i as int).to_set()),
                self.normalized_texts.set() == old(self).normalized_texts.set().union(
                    keys.take(i as int).to_set(),
                ),
        {
            assert(resolved@[i as int]@ == new_items[i as int]);
            let ghost before_ids = self.item_ids.set();
            let ghost before_keys = self.normalized_texts.set();
            self.item_ids.insert(resolved[i].id.clone());
            self.normalized_texts.insert(
                TextKey {
                    language: resolved[i].language,
                    kind: resolved[i].kind,
                    text: normalize_nfc(resolved[i].text.as_str()),
                },
            );
            proof {
                assert(ids.take(i + 1) =~= ids.take(i as int).push(ids[i as int]));
                assert(keys.take(i + 1) =~= keys.take(i as int).push(keys[i as int]));
                ids.take(i as int).lemma_push_to_set_commute(ids[i as int]);
                keys.take(i as int).lemma_push_to_set_commute(keys[i as int]);
                assert(self.item_ids.set() =~= old(self).item_ids.set().union(
                    ids.take(i + 1).to_set(),
                ));
                assert(self.normalized_texts.set() =~= old(self).normalized_texts.set().union(
                    keys.take(i + 1).to_set(),
                ));
            }
        }
        assert(ids.take(resolved@.len() as int) =~= ids);
        assert(keys.take(resolved@.len() as int) =~= keys);
        let ghost old_items = self.items@;
        self.items.append(&mut resolved);
        assert(resolved_views(self.items@) =~= resolved_views(old_items) + new_items);
        assert(self@ == inserted(old(self)@, p));
        assert forall|i: int| 0 <= i < self@.items.len() implies self@.pack_ids.contains(
            #[trigger] self@.items[i].pack_id,
        ) by {
            if i >= old(self)@.items.len() {
                assert(self@.items[i] == new_items[i - old(self)@.items.len()]);
            }
        }
        assert(self@.pack_sources.dom() =~= self@.pack_ids);
    }

    /// Removes a pack: its items, their IDs and texts from the indexes, and its ID, source and
    /// file.
    #[verifier::spinoff_prover]
    pub fn remove_pack(&mut self, id: &str)
        requires
            old(self).wf(),
        ensures
            final(self).wf(),
            final(self)@ == removed(old(self)@, id@),
    {
        let ghost all = old(self)@.items;
        let key = id.to_owned();
        let mut drained: Vec<ResolvedItem> = Vec::new();
        std::mem::swap(&mut drained, &mut self.items);
        assert(resolved_views(drained@) == all);
        let mut retained: Vec<ResolvedItem> = Vec::new();
        assert(kept_items(all.take(0), id@) =~= Seq::<ResolvedItemView>::empty());
        assert(self.item_ids.set() =~= Set::new(
            |x: Seq<char>| old(self)@.item_ids.contains(x) && !gone_id(all.take(0), id@, x),
        ));
        assert(self.normalized_texts.set() =~= Set::new(
            |x: (Language, ContentKind, Seq<char>)|
                old(self)@.normalized_texts.contains(x) && !gone_text(all.take(0), id@, x),
        ));
        for i in 0..drained.len()
            invariant
                resolved_views(drained@) == all,
                all == old(self)@.items,
                self.item_ids.wf(),
                self.normalized_texts.wf(),
                self.pack_ids == old(self).pack_ids,
                self.pack_sources == old(self).pack_sources,
                self.user_pack_paths == old(self).user_pack_paths,
                resolved_views(retained@) == kept_items(all.take(i as int), id@),
                self.item_ids.set() == Set::new(
                    |x: Seq<char>| old(self)@.item_ids.contains(x) && !gone_id(all.take(i as int), id@, x),
                ),
                self.normalized_texts.set() == Set::new(
                    |x: (Language, ContentKind, Seq<char>)|
                        old(self)@.normalized_texts.contains(x) && !gone_text(
                            all.take(i as int),
                            id@,
                            x,
                        ),
                ),
        {
            let ghost r = all[i as int];
            assert(drained@[i as int]@ == r);
            let ghost before = resolved_views(retained@);
            proof {
                all.take(i as int).lemma_filter_push(r, |x: ResolvedItemView| x.pack_id != id@);
                assert(all.take(i + 1) =~= all.take(i as int).push(r));
                lemma_gone_step(all, id@, i as int);
            }
            if str_eq(drained[i].pack_id.as_str(), id) {
                assert(r.pack_id == id@);
                let ghost prev_ids = self.item_ids.set();
                let ghost prev_texts = self.normalized_texts.set();
                self.item_ids.remove(&drained[i].id);
                let text_key = TextKey {
                    language: drained[i].language,
                    kind: drained[i].kind,
                    text: drained[i].text.clone(),
                };
                self.normalized_texts.remove(&text_key);
                assert(self.item_ids.set() == prev_ids.remove(r.id));
                assert(self.normalized_texts.set() == prev_texts.remove((r.language, r.kind, r.text)));
                assert(self.item_ids.set() =~= Set::new(
                    |x: Seq<char>| old(self)@.item_ids.contains(x) && !gone_id(all.take(i + 1), id@, x),
                ));
                assert(self.normalized_texts.set() =~= Set::new(
                    |x: (Language, ContentKind, Seq<char>)|
                        old(self)@.normalized_texts.contains(x) && !gone_text(all.take(i + 1), id@, x),
                ));
            } else {
                retained.push(drained[i].clone());
                assert(resolved_views(retained@) =~= before.push(r));
                assert(self.item_ids.set() =~= Set::new(
                    |x: Seq<char>| old(self)@.item_ids.contains(x) && !gone_id(all.take(i + 1), id@, x),
                ));
                assert(self.normalized_texts.set() =~= Set::new(
                    |x: (Language, ContentKind, Seq<char>)|
                        old(self)@.normalized_texts.contains(x) && !gone_text(all.take(i + 1), id@, x),
                ));
            }
        }
        assert(all.take(all.len() as int) =~= all);
        self.items = retained;
        self.pack_ids.remove(&key);
        self.pack_sources.remove(&key);
        self.user_pack_paths.remove(&key);
        assert(self@.pack_sources =~= old(self)@.pack_sources.remove(id@));
        assert(self@ == removed(old(self)@, id@));
        assert forall|i: int| 0 <= i < self@.items.len() implies self@.pack_ids.contains(
            #[trigger] self@.items[i].pack_id,
        ) by {
            let pred = |x: ResolvedItemView| x.pack_id != id@;
            all.lemma_filter_contains_rev(pred, self@.items[i]);
            let k = choose|k: int| 0 <= k < all.len() && all[k] == self@.items[i];
            all.lemma_filter_pred(pred, i);
            assert(old(self)@.pack_ids.contains(all[k].pack_id));
        }
        assert(self@.pack_sources.dom() =~= self@.pack_ids);
    }

    /// Adds a user pack read from `path` when it is valid and conflicts with nothing in the
    /// catalog, and remembers its file; otherwise leaves the catalog as it was. Returns the
    /// errors that kept the pack out, which are empty exactly when it was added.
    pub fn add_user_pack(&mut self, pack: ContentPack, path: PathBuf) -> (errors: Vec<
        ContentError,
    >)
        requires
            old(self).wf(),
        ensures
            final(self).wf(),
            error_views(errors@) == pack_errors(pack@) + conflict_errors(old(self)@, pack@),
            errors@.len() == 0 ==> final(self)@ == with_user_path(
                inserted(old(self)@, pack@),
                pack@.id,
                path,
            ),
            errors@.len() > 0 ==> final(self)@ == old(self)@,
    {
        let errors = self.validate_candidate(&pack);
        if errors.len() == 0 {
            let ghost p = pack@;
            let pack_id = pack.id.clone();
            self.insert(pack);
            self.user_pack_paths.insert(pack_id, path);
            assert(self@ == with_user_path(inserted(old(self)@, p), p.id, path));
            assert(self@.user_packs.dom().subset_of(self@.pack_ids));
        }
        errors
    }

    /// Takes in the user packs that were read, in the order of their file names: each one
    /// that could not be read becomes a warning about its file, each one that is valid and
    /// conflicts with nothing already loaded joins the catalog with its path, and the errors
    /// of every other one become warnings.
    pub fn load(catalog: ContentCatalog, reads: Vec<PackRead>) -> (r: CatalogLoad)
        requires
            catalog.wf(),
        ensures
            r.catalog.wf(),
            (r.catalog@, error_views(r.warnings@)) == load_spec(
                catalog@,
                read_views(reads@),
                reads@.len(),
            ),
    {
        let ghost views = read_views(reads@);
        let ghost start = catalog@;
        let mut catalog = catalog;
        let mut warnings: Vec<ContentError> = Vec::new();
        for read in it: reads.into_iter()
            invariant
                catalog.wf(),
                it.seq() == reads@,
                views == read_views(reads@),
                (catalog@, error_views(warnings@)) == load_spec(start, views, it.index() as nat),
        {
            let ghost before = (catalog@, error_views(warnings@));
            let ghost i = it.index();
            assert(views[i] == read@);
            match read {
                PackRead::Unreadable { fallback_id, message } => {
                    let warning = super::validation::file_error(fallback_id.as_str(), message);
                    push_error(&mut warnings, warning);
                },
                PackRead::Parsed { pack, path } => {
                    let errors = catalog.add_user_pack(pack, path);
                    extend_errors(&mut warnings, &errors);
                },
            }
            assert((catalog@, error_views(warnings@)) == load_step(before, views[i]));
        }
        CatalogLoad { catalog, warnings }
    }

    /// The message that rejects a built-in pack, if any rule fails.
    fn builtin_rejection(&self, path: &String, pack: &ContentPack) -> (r: Option<String>)
        ensures
            match r {
                Some(m) => builtin_errors(self@, pack@).len() > 0 && m@ == "invalid built-in pack "@
                    + path@ + ": "@ + super::validation::joined_errors(builtin_errors(self@, pack@)),
                None => builtin_errors(self@, pack@).len() == 0,
            },
    {
        let mut errors = validate_pack(pack);
        let words = validate_builtin_words(pack);
        extend_errors(&mut errors, &words);
        let typing = validate_builtin_typeability(pack);
        extend_errors(&mut errors, &typing);
        let conflicts = self.conflicts(pack);
        extend_errors(&mut errors, &conflicts);
        assert(error_views(errors@) == builtin_errors(self@, pack@));
        if errors.len() > 0 {
            let mut message = "invalid built-in pack ".to_owned();
            crate::text::push_str(&mut message, path.as_str());
            crate::text::push_str(&mut message, ": ");
            let summary = super::validation::format_errors(&errors);
            crate::text::push_str(&mut message, summary.as_str());
            Some(message)
        } else {
            None
        }
    }

    /// Builds the catalog of the built-in packs, given with the paths they were read from, in
    /// order. Built-in packs must also declare every word's difficulty and hold only text that
    /// can be typed directly; the first pack that fails any rule stops the build and names
    /// its path and every error. The catalog built has no two items with the same ID, nor with
    /// the same language, kind and normalized text.
    #[verifier::spinoff_prover]
    pub fn load_builtins(sources: &Vec<(String, ContentPack)>) -> (r: Result<Self, String>)
        ensures
            match r {
                Ok(c) => c.wf() && packs_have_items(c@) && distinct_item_ids(c@) && distinct_texts(c@) && build_builtins(
                    builtin_views(sources@),
                    sources@.len(),
                ) == Ok::<CatalogView, Seq<char>>(c@),
                Err(m) => build_builtins(builtin_views(sources@), sources@.len()) == Err::<
                    CatalogView,
                    Seq<char>,
                >(m@),
            },
    {
        let ghost views = builtin_views(sources@);
        let mut catalog = ContentCatalog::new();
        for i in 0..sources.len()
            invariant
                catalog.wf(),
                views == builtin_views(sources@),
                build_builtins(views, i as nat) == Ok::<CatalogView, Seq<char>>(catalog@),
        {
            let (path, pack) = &sources[i];
            assert(views[i as int] == (path@, pack@));
            let ghost before = catalog@;
            match catalog.builtin_rejection(path, pack) {
                Some(message) => {
                    proof {
                        lemma_build_rejects(views, i as nat, before);
                    }
                    return Err(message);
                },
                None => {},
            }
            catalog.insert(pack.clone());
            proof {
                lemma_build_accepts(views, i as nat, before);
            }
        }
        proof {
            lemma_builtins_packs_have_items(views, views.len());
            lemma_builtins_distinct_ids(views, views.len());
            lemma_builtins_distinct_texts(views, views.len());
        }
        Ok(catalog)
    }
}

impl Default for ContentCatalog {
    fn default() -> (r: Self)
        ensures
            r.wf(),
            r@ == empty_catalog(),
    {
        ContentCatalog::new()
    }
}

} // verus!
