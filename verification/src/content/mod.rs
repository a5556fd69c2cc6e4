//! Content packs: their data model, their validation and the catalog that holds them.
pub mod catalog;
pub mod validation;

pub use catalog::{
    CatalogLoad, CatalogView, ContentCatalog, PackRead, PackReadView, TextKey, distinct_item_ids,
    lemma_insert_keeps_item_ids_distinct, load_spec, load_step,
    read_views, build_builtins, builtin_errors, catalog_inv,
    conflict_errors, empty_catalog, inserted, lemma_remove_undoes_insert, removed, resolve_spec,
    resolved, resolved_views, selects, with_user_path, of_kind, of_any_kind, summed_counts,
    lemma_count_any_sums, packs_have_items, lemma_packs_have_items_kept,
    lemma_load_packs_have_items, lemma_builtins_packs_have_items,
    lemma_empty_catalog_packs_have_items, lemma_known_packs_have_items, lemma_builtins_distinct_ids,
    distinct_texts, lemma_insert_keeps_texts_distinct, lemma_builtins_distinct_texts,
};
pub use validation::{
    error, file_error, format_errors, pack_errors, validate_builtin_typeability,
    validate_builtin_words, validate_pack, MAX_METADATA_BYTES, MAX_METADATA_COLUMNS,
};


use crate::model::Language;
use vstd::prelude::*;

verus! {

/// The largest content pack, custom text or standard input the library accepts, in bytes.
pub const MAX_CONTENT_BYTES: usize = 8388608;

/// What a content item is used for.
#[derive(Clone, Copy, Debug, PartialEq, Eq, Hash, Structural)]
pub enum ContentKind {
    Word,
    Sentence,
    Quote,
    Text,
}

/// Attribution and licensing of a pack or an item.
#[derive(Debug, PartialEq, Eq)]
pub struct SourceMeta {
    pub author: String,
    pub source_id: String,
    pub source_url: String,
    pub license: String,
    pub license_url: String,
    pub modified: bool,
    pub retrieved_at: String,
}

/// The mathematical model of [`SourceMeta`].
pub struct SourceMetaView {
    pub author: Seq<char>,
    pub source_id: Seq<char>,
    pub source_url: Seq<char>,
    pub license: Seq<char>,
    pub license_url: Seq<char>,
    pub modified: bool,
    pub retrieved_at: Seq<char>,
}

impl View for SourceMeta {
    type V = SourceMetaView;

    open spec fn view(&self) -> SourceMetaView {
        SourceMetaView {
            author: self.author@,
            source_id: self.source_id@,
            source_url: self.source_url@,
            license: self.license@,
            license_url: self.license_url@,
            modified: self.modified,
            retrieved_at: self.retrieved_at@,
        }
    }
}

impl Clone for SourceMeta {
    fn clone(&self) -> (r: Self)
        ensures
            r@ == self@,
    {
        SourceMeta {
            author: self.author.clone(),
            source_id: self.source_id.clone(),
            source_url: self.source_url.clone(),
            license: self.license.clone(),
            license_url: self.license_url.clone(),
            modified: self.modified,
            retrieved_at: self.retrieved_at.clone(),
        }
    }
}

/// One item of a content pack.
#[derive(Debug)]
pub struct ContentItem {
    pub id: String,
    pub kind: ContentKind,
    pub text: String,
    pub difficulty: Option<u8>,
    pub tags: Vec<String>,
    pub title: Option<String>,
    pub source: Option<SourceMeta>,
}

/// The mathematical model of [`ContentItem`].
pub struct ContentItemView {
    pub id: Seq<char>,
    pub kind: ContentKind,
    pub text: Seq<char>,
    pub difficulty: Option<u8>,
    pub tags: Seq<Seq<char>>,
    pub title: Option<Seq<char>>,
    pub source: Option<SourceMetaView>,
}

/// The view of an optional string.
pub open spec fn opt_view(s: Option<String>) -> Option<Seq<char>> {
    match s {
        Some(s) => Some(s@),
        None => None,
    }
}

/// The view of an optional source.
pub open spec fn opt_source_view(s: Option<SourceMeta>) -> Option<SourceMetaView> {
    match s {
        Some(s) => Some(s@),
        None => None,
    }
}

impl View for ContentItem {
    type V = ContentItemView;

    open spec fn view(&self) -> ContentItemView {
        ContentItemView {
            id: self.id@,
            kind: self.kind,
            text: self.text@,
            difficulty: self.difficulty,
            tags: crate::text::string_views(self.tags@),
            title: opt_view(self.title),
            source: opt_source_view(self.source),
        }
    }
}

/// Clones a list of strings.
pub fn clone_strings(v: &Vec<String>) -> (r: Vec<String>)
    ensures
        crate::text::string_views(r@) == crate::text::string_views(v@),
{
    let mut r: Vec<String> = Vec::new();
    for i in 0..v.len()
        invariant
            r@.len() == i,
            forall|j: int| 0 <= j < i ==> #[trigger] r@[j]@ == v@[j]@,
    {
        r.push(v[i].clone());
    }
    assert(crate::text::string_views(r@) =~= crate::text::string_views(v@));
    r
}

/// Clones an optional string.
pub fn clone_opt_string(s: &Option<String>) -> (r: Option<String>)
    ensures
        opt_view(r) == opt_view(*s),
{
    match s {
        Some(s) => Some(s.clone()),
        None => None,
    }
}

/// Clones an optional source.
pub fn clone_opt_source(s: &Option<SourceMeta>) -> (r: Option<SourceMeta>)
    ensures
        opt_source_view(r) == opt_source_view(*s),
{
    match s {
        Some(s) => Some(s.clone()),
        None => None,
    }
}

impl Clone for ContentItem {
    fn clone(&self) -> (r: Self)
        ensures
            r@ == self@,
    {
        ContentItem {
            id: self.id.clone(),
            kind: self.kind,
            text: self.text.clone(),
            difficulty: self.difficulty,
            tags: clone_strings(&self.tags),
            title: clone_opt_string(&self.title),
            source: clone_opt_source(&self.source),
        }
    }
}

/// A content pack as read from a pack file.
#[derive(Debug)]
pub struct ContentPack {
    pub schema_version: u16,
    pub id: String,
    pub title: String,
    pub language: Language,
    pub source: SourceMeta,
    pub items: Vec<ContentItem>,
}

/// The mathematical model of [`ContentPack`].
pub struct ContentPackView {
    pub schema_version: u16,
    pub id: Seq<char>,
    pub title: Seq<char>,
    pub language: Language,
    pub source: SourceMetaView,
    pub items: Seq<ContentItemView>,
}

impl View for ContentPack {
    type V = ContentPackView;

    open spec fn view(&self) -> ContentPackView {
        ContentPackView {
            schema_version: self.schema_version,
            id: self.id@,
            title: self.title@,
            language: self.language,
            source: self.source@,
            items: self.items@.map_values(|item: ContentItem| item@),
        }
    }
}

impl Clone for ContentPack {
    fn clone(&self) -> (r: Self)
        ensures
            r@ == self@,
    {
        let mut items: Vec<ContentItem> = Vec::new();
        for i in 0..self.items.len()
            invariant
                items@.len() == i,
                forall|j: int| 0 <= j < i ==> #[trigger] items@[j]@ == self.items@[j]@,
        {
            items.push(self.items[i].clone());
        }
        let r = ContentPack {
            schema_version: self.schema_version,
            id: self.id.clone(),
            title: self.title.clone(),
            language: self.language,
            source: self.source.clone(),
            items,
        };
        assert(r@.items =~= self@.items);
        r
    }
}

/// An item together with everything it inherits from its pack.
#[derive(Debug)]
pub struct ResolvedItem {
    pub pack_id: String,
    pub id: String,
    pub language: Language,
    pub kind: ContentKind,
    pub text: String,
    pub difficulty: Option<u8>,
    pub tags: Vec<String>,
    pub title: Option<String>,
    pub source: SourceMeta,
}

/// The mathematical model of [`ResolvedItem`].
pub struct ResolvedItemView {
    pub pack_id: Seq<char>,
    pub id: Seq<char>,
    pub language: Language,
    pub kind: ContentKind,
    pub text: Seq<char>,
    pub difficulty: Option<u8>,
    pub tags: Seq<Seq<char>>,
    pub title: Option<Seq<char>>,
    pub source: SourceMetaView,
}

impl View for ResolvedItem {
    type V = ResolvedItemView;

    open spec fn view(&self) -> ResolvedItemView {
        ResolvedItemView {
            pack_id: self.pack_id@,
            id: self.id@,
            language: self.language,
            kind: self.kind,
            text: self.text@,
            difficulty: self.difficulty,
            tags: crate::text::string_views(self.tags@),
            title: opt_view(self.title),
            source: self.source@,
        }
    }
}

impl Clone for ResolvedItem {
    fn clone(&self) -> (r: Self)
        ensures
            r@ == self@,
    {
        ResolvedItem {
            pack_id: self.pack_id.clone(),
            id: self.id.clone(),
            language: self.language,
            kind: self.kind,
            text: self.text.clone(),
            difficulty: self.difficulty,
            tags: clone_strings(&self.tags),
            title: clone_opt_string(&self.title),
            source: self.source.clone(),
        }
    }
}

/// A problem found in a pack, reported against the pack, the item and the field.
#[derive(Debug, PartialEq, Eq)]
pub struct ContentError {
    pub pack_id: String,
    pub item_id: Option<String>,
    pub field: String,
    pub message: String,
}

/// The mathematical model of [`ContentError`].
pub struct ContentErrorView {
    pub pack_id: Seq<char>,
    pub item_id: Option<Seq<char>>,
    pub field: Seq<char>,
    pub message: Seq<char>,
}

impl View for ContentError {
    type V = ContentErrorView;

    open spec fn view(&self) -> ContentErrorView {
        ContentErrorView {
            pack_id: self.pack_id@,
            item_id: opt_view(self.item_id),
            field: self.field@,
            message: self.message@,
        }
    }
}

impl Clone for ContentError {
    fn clone(&self) -> (r: Self)
        ensures
            r@ == self@,
    {
        ContentError {
            pack_id: self.pack_id.clone(),
            item_id: clone_opt_string(&self.item_id),
            field: self.field.clone(),
            message: self.message.clone(),
        }
    }
}

/// The views of a list of errors.
pub open spec fn error_views(v: Seq<ContentError>) -> Seq<ContentErrorView> {
    v.map_values(|e: ContentError| e@)
}

/// Appends an error to a list of errors.
pub fn push_error(errors: &mut Vec<ContentError>, e: ContentError)
    ensures
        error_views(final(errors)@) == error_views(old(errors)@).push(e@),
{
    errors.push(e);
    assert(error_views(errors@) =~= error_views(old(errors)@).push(e@));
}

/// Appends a list of errors to a list of errors.
pub fn extend_errors(errors: &mut Vec<ContentError>, more: &Vec<ContentError>)
    ensures
        error_views(final(errors)@) == error_views(old(errors)@) + error_views(more@),
{
    for i in 0..more.len()
        invariant
            error_views(errors@) == error_views(old(errors)@) + error_views(more@.subrange(0, i as int)),
    {
        push_error(errors, more[i].clone());
        assert(more@.subrange(0, i + 1) =~= more@.subrange(0, i as int).push(more@[i as int]));
        assert(error_views(more@.subrange(0, i + 1)) =~= error_views(more@.subrange(0, i as int)).push(more@[i as int]@));
    }
    assert(more@.subrange(0, more@.len() as int) =~= more@);
}

} // verus!
