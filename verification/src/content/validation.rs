//! The rules a content pack must satisfy, stated as the exact list of errors it produces.
use super::{
    ContentError, ContentErrorView, ContentItem, ContentKind, ContentPack, ContentPackView,
    SourceMeta, SourceMetaView, error_views, push_error,
};
use crate::model::Language;
use crate::text::{
    contains_control, contains_control_except_newline, display_width, has_control, is_ascii_graphic,
    is_blank, is_blank_str, nfc, normalize_nfc, push_char, push_str, spec_is_ascii_graphic,
    spec_is_control, str_eq, str_width, utf8_len,
};
use vstd::prelude::*;
use vstd::seq_lib::lemma_concat_associative;

verus! {

/// The widest terminal-visible metadata value, in columns.
pub const MAX_METADATA_COLUMNS: usize = 320;

/// The longest terminal-visible metadata value, in bytes.
pub const MAX_METADATA_BYTES: usize = 1024;

/// The message for a value that holds a control character.
pub open spec fn msg_control() -> Seq<char> {
    "contains a disallowed control character"@
}

/// The message for a value that is too wide or too long.
pub open spec fn msg_size() -> Seq<char> {
    "must be at most 320 terminal columns and 1024 bytes"@
}

/// The message for a required value that is blank.
pub open spec fn msg_empty() -> Seq<char> {
    "must not be empty"@
}

/// The message that announces a repeated normalized text; the earlier item's ID follows it.
pub open spec fn msg_duplicate_text() -> Seq<char> {
    "duplicate normalized text from item "@
}

/// The view of an optional borrowed string.
pub open spec fn opt_str_view(s: Option<&str>) -> Option<Seq<char>> {
    match s {
        Some(s) => Some(s@),
        None => None,
    }
}

/// The error that [`error`] builds.
pub open spec fn error_view(
    pack_id: Seq<char>,
    item_id: Option<Seq<char>>,
    field: Seq<char>,
    message: Seq<char>,
) -> ContentErrorView {
    ContentErrorView { pack_id, item_id, field, message }
}

/// A one-error list when `cond` holds, else nothing.
pub open spec fn report(cond: bool, e: ContentErrorView) -> Seq<ContentErrorView> {
    if cond {
        seq![e]
    } else {
        seq![]
    }
}

/// The licenses that a pack or an item may carry.
pub open spec fn allowed_license(license: Seq<char>) -> bool {
    license == "CC0-1.0"@ || license == "CC-BY-2.0-FR"@ || license == "CC-BY-4.0"@ || license
        == "CC-BY-SA-4.0"@ || license == "KOGL-0"@ || license == "KOGL-1.0"@ || license
        == "LicenseRef-Public-Domain"@
}

/// A value is wider than 320 columns or longer than 1024 bytes.
pub open spec fn oversized(value: Seq<char>) -> bool {
    display_width(value) > MAX_METADATA_COLUMNS || utf8_len(value) > MAX_METADATA_BYTES
}

/// The errors of a terminal-visible value: a control character, then its size.
pub open spec fn visible_errors(
    pack_id: Seq<char>,
    item_id: Option<Seq<char>>,
    field: Seq<char>,
    value: Seq<char>,
) -> Seq<ContentErrorView> {
    report(has_control(value), error_view(pack_id, item_id, field, msg_control())) + report(
        oversized(value),
        error_view(pack_id, item_id, field, msg_size()),
    )
}

/// The errors of a required metadata field: blank, then the visible-value errors.
pub open spec fn field_errors(
    pack_id: Seq<char>,
    item_id: Option<Seq<char>>,
    field: Seq<char>,
    value: Seq<char>,
) -> Seq<ContentErrorView> {
    report(is_blank(value), error_view(pack_id, item_id, field, msg_empty())) + visible_errors(
        pack_id,
        item_id,
        field,
        value,
    )
}

/// The total display width of the six text fields of a source.
pub open spec fn source_width(s: SourceMetaView) -> int {
    display_width(s.author) + display_width(s.source_id) + display_width(s.source_url)
        + display_width(s.license) + display_width(s.license_url) + display_width(s.retrieved_at)
}

/// The total UTF-8 length of the six text fields of a source.
pub open spec fn source_bytes(s: SourceMetaView) -> int {
    utf8_len(s.author) + utf8_len(s.source_id) + utf8_len(s.source_url) + utf8_len(s.license)
        + utf8_len(s.license_url) + utf8_len(s.retrieved_at)
}

/// The errors of a source: license, each field in order, then the combined size.
#[verifier::opaque]
pub open spec fn source_errors(
    pack_id: Seq<char>,
    item_id: Option<Seq<char>>,
    s: SourceMetaView,
) -> Seq<ContentErrorView> {
    report(
        !allowed_license(s.license),
        error_view(pack_id, item_id, "source.license"@, "unsupported license"@),
    ) + field_errors(pack_id, item_id, "source.author"@, s.author) + field_errors(
        pack_id,
        item_id,
        "source.source_id"@,
        s.source_id,
    ) + field_errors(pack_id, item_id, "source.source_url"@, s.source_url) + field_errors(
        pack_id,
        item_id,
        "source.license"@,
        s.license,
    ) + field_errors(pack_id, item_id, "source.license_url"@, s.license_url) + field_errors(
        pack_id,
        item_id,
        "source.retrieved_at"@,
        s.retrieved_at,
    ) + report(
        source_width(s) > MAX_METADATA_COLUMNS || source_bytes(s) > MAX_METADATA_BYTES,
        error_view(pack_id, item_id, "source"@, msg_size()),
    )
}

/// The visible-value errors of the first `n` tags.
pub open spec fn tags_errors(
    pack_id: Seq<char>,
    item_id: Option<Seq<char>>,
    tags: Seq<Seq<char>>,
    n: nat,
) -> Seq<ContentErrorView>
    decreases n,
{
    if n == 0 {
        seq![]
    } else {
        tags_errors(pack_id, item_id, tags, (n - 1) as nat) + visible_errors(
            pack_id,
            item_id,
            "tags"@,
            tags[n - 1],
        )
    }
}

/// The errors of a pack's own fields, before any item.
pub open spec fn header_errors(p: ContentPackView) -> Seq<ContentErrorView> {
    report(p.schema_version != 1, error_view(p.id, None, "schema_version"@, "must be 1"@))
        + report(is_blank(p.id), error_view(p.id, None, "id"@, msg_empty())) + visible_errors(
        p.id,
        None,
        "id"@,
        p.id,
    ) + visible_errors(p.id, None, "title"@, p.title) + report(
        p.items.len() == 0,
        error_view(p.id, None, "items"@, msg_empty()),
    ) + source_errors(p.id, None, p.source)
}

/// Some item before index `i` has the ID of item `i`.
pub open spec fn earlier_id(items: Seq<super::ContentItemView>, i: int) -> bool {
    exists|j: int| 0 <= j < i && #[trigger] items[j].id == items[i].id
}

/// The last item before index `n` with this kind and normalized text.
pub open spec fn last_text_match(
    items: Seq<super::ContentItemView>,
    kind: ContentKind,
    norm: Seq<char>,
    n: int,
) -> Option<int>
    decreases n,
{
    if n <= 0 {
        None
    } else if items[n - 1].kind == kind && nfc(items[n - 1].text) == norm {
        Some(n - 1)
    } else {
        last_text_match(items, kind, norm, n - 1)
    }
}

/// Whether the item's difficulty is present and outside `1..=3`.
pub open spec fn bad_difficulty(d: Option<u8>) -> bool {
    match d {
        Some(v) => !(1 <= v && v <= 3),
        None => false,
    }
}

/// The text holds a control character other than a line feed.
pub open spec fn text_has_control(text: Seq<char>) -> bool {
    exists|k: int| 0 <= k < text.len() && text[k] != '\n' && spec_is_control(#[trigger] text[k])
}

/// The errors of the identification fields of item `i`: its ID, title and tags.
#[verifier::opaque]
pub open spec fn item_label_errors(p: ContentPackView, i: int) -> Seq<ContentErrorView> {
    let it = p.items[i];
    let iid = Some(it.id);
    let pid = p.id;
    (if is_blank(it.id) {
        seq![error_view(pid, iid, "id"@, msg_empty())]
    } else if earlier_id(p.items, i) {
        seq![error_view(pid, iid, "id"@, "duplicate item ID"@)]
    } else {
        seq![]
    }) + visible_errors(pid, iid, "id"@, it.id) + (match it.title {
        Some(t) => visible_errors(pid, iid, "title"@, t),
        None => seq![],
    }) + tags_errors(pid, iid, it.tags, it.tags.len())
}

/// The text holds two line feeds in a row.
pub open spec fn has_blank_line(text: Seq<char>) -> bool {
    exists|k: int| 0 <= k < text.len() - 1 && #[trigger] text[k] == '\n' && text[k + 1] == '\n'
}

/// Whether a text holds two line feeds in a row.
fn contains_blank_line(text: &str) -> (r: bool)
    ensures
        r == has_blank_line(text@),
{
    let ghost s = text@;
    let mut previous_newline = false;
    let mut found = false;
    for c in it: text.chars()
        invariant
            it.seq() == s,
            s == text@,
            previous_newline == (it.index() > 0 && s[it.index() - 1] == '\n'),
            found == exists|k: int|
                0 <= k < it.index() - 1 && #[trigger] s[k] == '\n' && s[k + 1] == '\n',
    {
        let ghost i = it.index();
        assert(c == s[i as int]);
        if c == '\n' && previous_newline {
            found = true;
            assert(s[i - 1] == '\n' && s[i - 1 + 1] == '\n');
        }
        previous_newline = c == '\n';
    }
    found
}

/// The errors of the text of item `i`.
#[verifier::opaque]
pub open spec fn item_text_errors(p: ContentPackView, i: int) -> Seq<ContentErrorView> {
    let it = p.items[i];
    let iid = Some(it.id);
    let pid = p.id;
    report(is_blank(it.text), error_view(pid, iid, "text"@, msg_empty())) + report(
        text_has_control(it.text),
        error_view(pid, iid, "text"@, msg_control()),
    ) + report(
        has_blank_line(it.text),
        error_view(pid, iid, "text"@, "must not contain consecutive newlines"@),
    ) + report(nfc(it.text) != it.text, error_view(pid, iid, "text"@, "must be NFC normalized"@))
        + (match last_text_match(p.items, it.kind, nfc(it.text), i) {
        Some(j) => seq![error_view(pid, iid, "text"@, msg_duplicate_text() + p.items[j].id)],
        None => seq![],
    })
}

/// The errors of the difficulty and the source of item `i`.
#[verifier::opaque]
pub open spec fn item_extra_errors(p: ContentPackView, i: int) -> Seq<ContentErrorView> {
    let it = p.items[i];
    let iid = Some(it.id);
    let pid = p.id;
    report(
        bad_difficulty(it.difficulty),
        error_view(pid, iid, "difficulty"@, "must be between 1 and 3"@),
    ) + (match it.source {
        Some(s) => source_errors(pid, iid, s),
        None => seq![],
    })
}

/// The errors of item `i` of a pack, in the order they are reported.
pub open spec fn item_errors(p: ContentPackView, i: int) -> Seq<ContentErrorView> {
    item_label_errors(p, i) + item_text_errors(p, i) + item_extra_errors(p, i)
}

/// The errors of the first `n` items.
pub open spec fn items_errors(p: ContentPackView, n: nat) -> Seq<ContentErrorView>
    decreases n,
{
    if n == 0 {
        seq![]
    } else {
        items_errors(p, (n - 1) as nat) + item_errors(p, n - 1)
    }
}

/// Every error of a pack, in the order [`validate_pack`] reports them.
pub open spec fn pack_errors(p: ContentPackView) -> Seq<ContentErrorView> {
    header_errors(p) + items_errors(p, p.items.len())
}

/// Builds an error against a pack, an optional item and a field.
pub fn error(pack: &ContentPack, item_id: Option<&str>, field: &str, message: &str) -> (r:
    ContentError)
    ensures
        r@ == error_view(pack.id@, opt_str_view(item_id), field@, message@),
{
    ContentError {
        pack_id: pack.id.clone(),
        item_id: match item_id {
            Some(id) => Some(id.to_owned()),
            None => None,
        },
        field: field.to_owned(),
        message: message.to_owned(),
    }
}

/// Builds an error about a pack file that could not be read; the field is `file`.
pub fn file_error(pack_id: &str, message: String) -> (r: ContentError)
    ensures
        r@ == error_view(pack_id@, None, "file"@, message@),
{
    ContentError { pack_id: pack_id.to_owned(), item_id: None, field: "file".to_owned(), message }
}

/// Reports the errors of a terminal-visible value.
fn validate_visible(
    pack: &ContentPack,
    item_id: Option<&str>,
    field: &str,
    value: &str,
    errors: &mut Vec<ContentError>,
)
    ensures
        error_views(final(errors)@) == error_views(old(errors)@) + visible_errors(
            pack.id@,
            opt_str_view(item_id),
            field@,
            value@,
        ),
{
    let ghost start = error_views(errors@);
    let ghost pid = pack.id@;
    let ghost iid = opt_str_view(item_id);
    let control = contains_control(value);
    if control {
        push_error(errors, error(pack, item_id, field, "contains a disallowed control character"));
    }
    let ghost mid = error_views(errors@);
    assert(mid =~= start + report(has_control(value@), error_view(pid, iid, field@, msg_control())));
    if str_width(value) > MAX_METADATA_COLUMNS || value.len() > MAX_METADATA_BYTES {
        push_error(
            errors,
            error(pack, item_id, field, "must be at most 320 terminal columns and 1024 bytes"),
        );
    }
    assert(error_views(errors@) =~= mid + report(
        oversized(value@),
        error_view(pid, iid, field@, msg_size()),
    ));
}

/// Reports the errors of a required metadata field.
fn validate_field(
    pack: &ContentPack,
    item_id: Option<&str>,
    field: &str,
    value: &str,
    errors: &mut Vec<ContentError>,
)
    ensures
        error_views(final(errors)@) == error_views(old(errors)@) + field_errors(
            pack.id@,
            opt_str_view(item_id),
            field@,
            value@,
        ),
{
    let ghost start = error_views(errors@);
    if is_blank_str(value) {
        push_error(errors, error(pack, item_id, field, "must not be empty"));
    }
    let ghost mid = error_views(errors@);
    validate_visible(pack, item_id, field, value, errors);
    assert(error_views(errors@) =~= start + field_errors(
        pack.id@,
        opt_str_view(item_id),
        field@,
        value@,
    ));
}

/// Whether a license is on the allowlist.
pub fn is_allowed_license(license: &str) -> (r: bool)
    ensures
        r == allowed_license(license@),
{
    str_eq(license, "CC0-1.0") || str_eq(license, "CC-BY-2.0-FR") || str_eq(license, "CC-BY-4.0")
        || str_eq(license, "CC-BY-SA-4.0") || str_eq(license, "KOGL-0") || str_eq(
        license,
        "KOGL-1.0",
    ) || str_eq(license, "LicenseRef-Public-Domain")
}

/// The total display width of the six text fields of a source.
fn source_width_of(source: &SourceMeta) -> (r: u128)
    ensures
        r == source_width(source@),
{
    str_width(source.author.as_str()) as u128 + str_width(source.source_id.as_str()) as u128
        + str_width(source.source_url.as_str()) as u128 + str_width(source.license.as_str()) as u128
        + str_width(source.license_url.as_str()) as u128 + str_width(source.retrieved_at.as_str())
        as u128
}

/// The total UTF-8 length of the six text fields of a source.
fn source_bytes_of(source: &SourceMeta) -> (r: u128)
    ensures
        r == source_bytes(source@),
{
    source.author.as_str().len() as u128 + source.source_id.as_str().len() as u128
        + source.source_url.as_str().len() as u128 + source.license.as_str().len() as u128
        + source.license_url.as_str().len() as u128 + source.retrieved_at.as_str().len() as u128
}

/// Reports the errors of a source.
fn validate_source(
    pack: &ContentPack,
    item_id: Option<&str>,
    source: &SourceMeta,
    errors: &mut Vec<ContentError>,
)
    ensures
        error_views(final(errors)@) == error_views(old(errors)@) + source_errors(
            pack.id@,
            opt_str_view(item_id),
            source@,
        ),
{
    reveal(source_errors);
    let ghost start = error_views(errors@);
    let ghost pid = pack.id@;
    let ghost iid = opt_str_view(item_id);
    let ghost s = source@;
    if !is_allowed_license(source.license.as_str()) {
        push_error(errors, error(pack, item_id, "source.license", "unsupported license"));
    }
    let ghost acc = report(
        !allowed_license(s.license),
        error_view(pid, iid, "source.license"@, "unsupported license"@),
    );
    assert(error_views(errors@) =~= start + acc);
    validate_field(pack, item_id, "source.author", source.author.as_str(), errors);
    proof {
        let piece = field_errors(pid, iid, "source.author"@, s.author);
        lemma_concat_associative(start, acc, piece);
        acc = acc + piece;
    }
    validate_field(pack, item_id, "source.source_id", source.source_id.as_str(), errors);
    proof {
        let piece = field_errors(pid, iid, "source.source_id"@, s.source_id);
        lemma_concat_associative(start, acc, piece);
        acc = acc + piece;
    }
    validate_field(pack, item_id, "source.source_url", source.source_url.as_str(), errors);
    proof {
        let piece = field_errors(pid, iid, "source.source_url"@, s.source_url);
        lemma_concat_associative(start, acc, piece);
        acc = acc + piece;
    }
    validate_field(pack, item_id, "source.license", source.license.as_str(), errors);
    proof {
        let piece = field_errors(pid, iid, "source.license"@, s.license);
        lemma_concat_associative(start, acc, piece);
        acc = acc + piece;
    }
    validate_field(pack, item_id, "source.license_url", source.license_url.as_str(), errors);
    proof {
        let piece = field_errors(pid, iid, "source.license_url"@, s.license_url);
        lemma_concat_associative(start, acc, piece);
        acc = acc + piece;
    }
    validate_field(pack, item_id, "source.retrieved_at", source.retrieved_at.as_str(), errors);
    proof {
        let piece = field_errors(pid, iid, "source.retrieved_at"@, s.retrieved_at);
        lemma_concat_associative(start, acc, piece);
        acc = acc + piece;
    }
    let width = source_width_of(source);
    let bytes = source_bytes_of(source);
    let ghost before = error_views(errors@);
    if width > 320 || bytes > 1024 {
        push_error(
            errors,
            error(pack, item_id, "source", "must be at most 320 terminal columns and 1024 bytes"),
        );
    }
    proof {
        let piece = report(
            source_width(s) > MAX_METADATA_COLUMNS || source_bytes(s) > MAX_METADATA_BYTES,
            error_view(pid, iid, "source"@, msg_size()),
        );
        assert(error_views(errors@) =~= before + piece);
        lemma_concat_associative(start, acc, piece);
        acc = acc + piece;
    }
}

/// Whether some item before index `i` has the ID of item `i`.
fn has_earlier_id(items: &Vec<ContentItem>, i: usize) -> (r: bool)
    requires
        i < items@.len(),
    ensures
        r == earlier_id(items@.map_values(|item: ContentItem| item@), i as int),
{
    let ghost views = items@.map_values(|item: ContentItem| item@);
    let mut j: usize = 0;
    while j < i
        invariant
            j <= i < items@.len(),
            views == items@.map_values(|item: ContentItem| item@),
            forall|k: int| 0 <= k < j ==> #[trigger] views[k].id != views[i as int].id,
        decreases i - j,
    {
        if str_eq(items[j].id.as_str(), items[i].id.as_str()) {
            assert(views[j as int].id == views[i as int].id);
            return true;
        }
        j += 1;
    }
    false
}

/// The index of the last item before `i` with the kind of item `i` and the same normalized
/// text, given the normalized texts of the items before `i`.
fn find_text_match(items: &Vec<ContentItem>, norms: &Vec<String>, i: usize) -> (r: Option<usize>)
    requires
        i < items@.len(),
        norms@.len() == i + 1,
        forall|k: int| 0 <= k <= i ==> #[trigger] norms@[k]@ == nfc(items@[k].text@),
    ensures
        match r {
            Some(j) => j < i && last_text_match(
                items@.map_values(|item: ContentItem| item@),
                items@[i as int].kind,
                nfc(items@[i as int].text@),
                i as int,
            ) == Some(j as int),
            None => last_text_match(
                items@.map_values(|item: ContentItem| item@),
                items@[i as int].kind,
                nfc(items@[i as int].text@),
                i as int,
            ) is None,
        },
{
    let ghost views = items@.map_values(|item: ContentItem| item@);
    let ghost kind = items@[i as int].kind;
    let ghost norm = nfc(items@[i as int].text@);
    let mut n: usize = i;
    while n > 0
        invariant
            n <= i < items@.len(),
            norms@.len() == i + 1,
            forall|k: int| 0 <= k <= i ==> #[trigger] norms@[k]@ == nfc(items@[k].text@),
            views == items@.map_values(|item: ContentItem| item@),
            kind == items@[i as int].kind,
            norm == nfc(items@[i as int].text@),
            last_text_match(views, kind, norm, i as int) == last_text_match(
                views,
                kind,
                norm,
                n as int,
            ),
        decreases n,
    {
        assert(views[n - 1] == items@[n - 1]@);
        assert(norms@[n - 1]@ == nfc(items@[n - 1].text@));
        assert(norms@[i as int]@ == nfc(items@[i as int].text@));
        let same_kind = items[n - 1].kind == items[i].kind;
        let same_text = str_eq(norms[n - 1].as_str(), norms[i].as_str());
        assert(same_kind == (views[n - 1].kind == kind));
        assert(same_text == (nfc(views[n - 1].text) == norm));
        if same_kind && same_text {
            assert(last_text_match(views, kind, norm, n as int) == Some(n - 1));
            return Some(n - 1);
        }
        assert(last_text_match(views, kind, norm, n as int) == last_text_match(views, kind, norm, n - 1));
        n -= 1;
    }
    None
}

/// Reports the errors of the ID, title and tags of item `i`.
fn validate_item_label(pack: &ContentPack, i: usize, errors: &mut Vec<ContentError>)
    requires
        i < pack.items@.len(),
    ensures
        error_views(final(errors)@) == error_views(old(errors)@) + item_label_errors(pack@, i as int),
{
    reveal(item_label_errors);
    let ghost p = pack@;
    let ghost start = error_views(errors@);
    let item = &pack.items[i];
    let ghost it = p.items[i as int];
    assert(it == item@);
    let ghost pid = p.id;
    let ghost iid = Some(it.id);
    let item_id = Some(item.id.as_str());
    assert(opt_str_view(item_id) == iid);
    if is_blank_str(item.id.as_str()) {
        push_error(errors, error(pack, item_id, "id", "must not be empty"));
    } else if has_earlier_id(&pack.items, i) {
        push_error(errors, error(pack, item_id, "id", "duplicate item ID"));
    }
    let ghost acc = if is_blank(it.id) {
        seq![error_view(pid, iid, "id"@, msg_empty())]
    } else if earlier_id(p.items, i as int) {
        seq![error_view(pid, iid, "id"@, "duplicate item ID"@)]
    } else {
        seq![]
    };
    assert(error_views(errors@) =~= start + acc);
    validate_visible(pack, item_id, "id", item.id.as_str(), errors);
    proof {
        let piece = visible_errors(pid, iid, "id"@, it.id);
        lemma_concat_associative(start, acc, piece);
        acc = acc + piece;
    }
    let ghost before = error_views(errors@);
    match &item.title {
        Some(title) => validate_visible(pack, item_id, "title", title.as_str(), errors),
        None => {},
    }
    proof {
        let piece = match it.title {
            Some(t) => visible_errors(pid, iid, "title"@, t),
            None => seq![],
        };
        assert(error_views(errors@) =~= before + piece);
        lemma_concat_associative(start, acc, piece);
        acc = acc + piece;
    }
    let ghost before = error_views(errors@);
    for t in 0..item.tags.len()
        invariant
            error_views(errors@) == before + tags_errors(pid, iid, it.tags, t as nat),
            it.tags == crate::text::string_views(item.tags@),
            opt_str_view(item_id) == iid,
            pid == pack.id@,
    {
        validate_visible(pack, item_id, "tags", item.tags[t].as_str(), errors);
        proof {
            lemma_concat_associative(
                before,
                tags_errors(pid, iid, it.tags, t as nat),
                visible_errors(pid, iid, "tags"@, it.tags[t as int]),
            );
        }
    }
    proof {
        let piece = tags_errors(pid, iid, it.tags, it.tags.len());
        lemma_concat_associative(start, acc, piece);
    }
}

/// Reports the errors of the text of item `i`; `norms` holds the normalized texts of the
/// items up to and including `i`.
#[verifier::spinoff_prover]
#[verifier::rlimit(40)]
fn validate_item_text(
    pack: &ContentPack,
    i: usize,
    norms: &Vec<String>,
    errors: &mut Vec<ContentError>,
)
    requires
        i < pack.items@.len(),
        norms@.len() == i + 1,
        forall|k: int| 0 <= k <= i ==> #[trigger] norms@[k]@ == nfc(pack.items@[k].text@),
    ensures
        error_views(final(errors)@) == error_views(old(errors)@) + item_text_errors(pack@, i as int),
{
    reveal(item_text_errors);
    let ghost p = pack@;
    let ghost start = error_views(errors@);
    let item = &pack.items[i];
    let ghost it = p.items[i as int];
    assert(it == item@);
    let ghost pid = p.id;
    let ghost iid = Some(it.id);
    let item_id = Some(item.id.as_str());
    assert(opt_str_view(item_id) == iid);
    if is_blank_str(item.text.as_str()) {
        push_error(errors, error(pack, item_id, "text", "must not be empty"));
    }
    let ghost acc = report(is_blank(it.text), error_view(pid, iid, "text"@, msg_empty()));
    assert(error_views(errors@) =~= start + acc);
    let ghost before = error_views(errors@);
    if contains_control_except_newline(item.text.as_str()) {
        push_error(errors, error(pack, item_id, "text", "contains a disallowed control character"));
    }
    proof {
        let piece = report(text_has_control(it.text), error_view(pid, iid, "text"@, msg_control()));
        assert(error_views(errors@) =~= before + piece);
        lemma_concat_associative(start, acc, piece);
        acc = acc + piece;
    }
    let ghost before = error_views(errors@);
    if contains_blank_line(item.text.as_str()) {
        push_error(errors, error(pack, item_id, "text", "must not contain consecutive newlines"));
    }
    proof {
        let piece = report(
            has_blank_line(it.text),
            error_view(pid, iid, "text"@, "must not contain consecutive newlines"@),
        );
        assert(error_views(errors@) =~= before + piece);
        lemma_concat_associative(start, acc, piece);
        acc = acc + piece;
    }
    let ghost before = error_views(errors@);
    if !str_eq(norms[i].as_str(), item.text.as_str()) {
        push_error(errors, error(pack, item_id, "text", "must be NFC normalized"));
    }
    proof {
        let piece = report(
            nfc(it.text) != it.text,
            error_view(pid, iid, "text"@, "must be NFC normalized"@),
        );
        assert(error_views(errors@) =~= before + piece);
        lemma_concat_associative(start, acc, piece);
        acc = acc + piece;
    }
    let ghost before = error_views(errors@);
    match find_text_match(&pack.items, norms, i) {
        Some(j) => {
            let mut message = "duplicate normalized text from item ".to_owned();
            assert(j < pack.items@.len());
            push_str(&mut message, pack.items[j].id.as_str());
            push_error(
                errors,
                ContentError {
                    pack_id: pack.id.clone(),
                    item_id: Some(item.id.clone()),
                    field: "text".to_owned(),
                    message,
                },
            );
        },
        None => {},
    }
    proof {
        let piece = match last_text_match(p.items, it.kind, nfc(it.text), i as int) {
            Some(j) => seq![error_view(pid, iid, "text"@, msg_duplicate_text() + p.items[j].id)],
            None => seq![],
        };
        assert(error_views(errors@) =~= before + piece);
        lemma_concat_associative(start, acc, piece);
    }
}

/// Reports the errors of the difficulty and source of item `i`.
fn validate_item_extra(pack: &ContentPack, i: usize, errors: &mut Vec<ContentError>)
    requires
        i < pack.items@.len(),
    ensures
        error_views(final(errors)@) == error_views(old(errors)@) + item_extra_errors(pack@, i as int),
{
    reveal(item_extra_errors);
    let ghost p = pack@;
    let ghost start = error_views(errors@);
    let item = &pack.items[i];
    let ghost it = p.items[i as int];
    assert(it == item@);
    let ghost pid = p.id;
    let ghost iid = Some(it.id);
    let item_id = Some(item.id.as_str());
    assert(opt_str_view(item_id) == iid);
    let bad = match item.difficulty {
        Some(value) => !(1 <= value && value <= 3),
        None => false,
    };
    if bad {
        push_error(errors, error(pack, item_id, "difficulty", "must be between 1 and 3"));
    }
    let ghost acc = report(
        bad_difficulty(it.difficulty),
        error_view(pid, iid, "difficulty"@, "must be between 1 and 3"@),
    );
    assert(error_views(errors@) =~= start + acc);
    let ghost before = error_views(errors@);
    match &item.source {
        Some(source) => validate_source(pack, item_id, source, errors),
        None => {},
    }
    proof {
        let piece = match it.source {
            Some(s) => source_errors(pid, iid, s),
            None => seq![],
        };
        assert(error_views(errors@) =~= before + piece);
        lemma_concat_associative(start, acc, piece);
    }
}

/// Reports the errors of item `i` of a pack; `norms` holds the normalized texts of the items
/// up to and including `i`.
fn validate_item(pack: &ContentPack, i: usize, norms: &Vec<String>, errors: &mut Vec<ContentError>)
    requires
        i < pack.items@.len(),
        norms@.len() == i + 1,
        forall|k: int| 0 <= k <= i ==> #[trigger] norms@[k]@ == nfc(pack.items@[k].text@),
    ensures
        error_views(final(errors)@) == error_views(old(errors)@) + item_errors(pack@, i as int),
{
    let ghost start = error_views(errors@);
    validate_item_label(pack, i, errors);
    let ghost a = error_views(errors@);
    validate_item_text(pack, i, norms, errors);
    proof {
        lemma_concat_associative(start, item_label_errors(pack@, i as int), item_text_errors(pack@, i as int));
    }
    validate_item_extra(pack, i, errors);
    proof {
        lemma_concat_associative(
            start,
            item_label_errors(pack@, i as int) + item_text_errors(pack@, i as int),
            item_extra_errors(pack@, i as int),
        );
    }
}

/// Checks a pack against every rule and returns each violation, in a fixed order: the pack's
/// own fields first, then each item in turn.
pub fn validate_pack(pack: &ContentPack) -> (errors: Vec<ContentError>)
    ensures
        error_views(errors@) == pack_errors(pack@),
{
    let mut errors: Vec<ContentError> = Vec::new();
    let ghost p = pack@;
    let ghost start = error_views(errors@);
    assert(start =~= seq![]);
    if pack.schema_version != 1 {
        push_error(&mut errors, error(pack, None, "schema_version", "must be 1"));
    }
    let ghost acc = report(
        p.schema_version != 1,
        error_view(p.id, None, "schema_version"@, "must be 1"@),
    );
    assert(error_views(errors@) =~= acc);
    let ghost before = error_views(errors@);
    if is_blank_str(pack.id.as_str()) {
        push_error(&mut errors, error(pack, None, "id", "must not be empty"));
    }
    proof {
        let piece = report(is_blank(p.id), error_view(p.id, None, "id"@, msg_empty()));
        assert(error_views(errors@) =~= before + piece);
        acc = acc + piece;
    }
    validate_visible(pack, None, "id", pack.id.as_str(), &mut errors);
    proof {
        acc = acc + visible_errors(p.id, None, "id"@, p.id);
    }
    validate_visible(pack, None, "title", pack.title.as_str(), &mut errors);
    proof {
        acc = acc + visible_errors(p.id, None, "title"@, p.title);
    }
    let ghost before = error_views(errors@);
    if pack.items.len() == 0 {
        push_error(&mut errors, error(pack, None, "items", "must not be empty"));
    }
    proof {
        let piece = report(p.items.len() == 0, error_view(p.id, None, "items"@, msg_empty()));
        assert(error_views(errors@) =~= before + piece);
        acc = acc + piece;
    }
    validate_source(pack, None, &pack.source, &mut errors);
    proof {
        acc = acc + source_errors(p.id, None, p.source);
        assert(acc == header_errors(p));
    }
    let mut norms: Vec<String> = Vec::new();
    for i in 0..pack.items.len()
        invariant
            p == pack@,
            error_views(errors@) == header_errors(p) + items_errors(p, i as nat),
            norms@.len() == i,
            forall|k: int| 0 <= k < i ==> #[trigger] norms@[k]@ == nfc(pack.items@[k].text@),
    {
        norms.push(normalize_nfc(pack.items[i].text.as_str()));
        validate_item(pack, i, &norms, &mut errors);
        proof {
            lemma_concat_associative(
                header_errors(p),
                items_errors(p, i as nat),
                item_errors(p, i as int),
            );
        }
    }
    errors
}

/// The errors of the first `n` items for built-in packs: every word must declare its
/// difficulty.
pub open spec fn builtin_word_errors(p: ContentPackView, n: nat) -> Seq<ContentErrorView>
    decreases n,
{
    if n == 0 {
        seq![]
    } else {
        let it = p.items[n - 1];
        builtin_word_errors(p, (n - 1) as nat) + report(
            it.kind == ContentKind::Word && it.difficulty is None,
            error_view(p.id, Some(it.id), "difficulty"@, "built-in words must declare difficulty"@),
        )
    }
}

/// Reports every built-in word that does not declare its difficulty.
pub fn validate_builtin_words(pack: &ContentPack) -> (errors: Vec<ContentError>)
    ensures
        error_views(errors@) == builtin_word_errors(pack@, pack@.items.len()),
{
    let mut errors: Vec<ContentError> = Vec::new();
    for i in 0..pack.items.len()
        invariant
            error_views(errors@) == builtin_word_errors(pack@, i as nat),
    {
        let item = &pack.items[i];
        assert(pack@.items[i as int] == item@);
        if item.kind == ContentKind::Word && item.difficulty.is_none() {
            push_error(
                &mut errors,
                error(
                    pack,
                    Some(item.id.as_str()),
                    "difficulty",
                    "built-in words must declare difficulty",
                ),
            );
        }
        assert(error_views(errors@) =~= builtin_word_errors(pack@, (i + 1) as nat));
    }
    errors
}

/// A character can be typed directly on the keyboard layout of the language: a line feed, a
/// space, printable ASCII, or (for Korean) a precomposed Hangul syllable.
pub open spec fn typable(language: Language, c: char) -> bool {
    c == '\n' || c == ' ' || spec_is_ascii_graphic(c) || (language == Language::Ko && 0xac00
        <= (c as u32) && (c as u32) <= 0xd7a3)
}

/// The first character of a text that cannot be typed directly, if any.
pub open spec fn first_untypable(language: Language, text: Seq<char>) -> Option<char>
    decreases text.len(),
{
    if text.len() == 0 {
        None
    } else if !typable(language, text[0]) {
        Some(text[0])
    } else {
        first_untypable(language, text.drop_first())
    }
}

/// The uppercase hexadecimal digit of a value below 16.
pub open spec fn hex_digit(d: nat) -> char {
    if d < 10 {
        (48 + d) as char
    } else {
        (55 + d) as char
    }
}

/// The uppercase hexadecimal digits of a number, without leading zeros.
pub open spec fn hex_digits(n: nat) -> Seq<char>
    decreases n,
{
    if n < 16 {
        seq![hex_digit(n)]
    } else {
        hex_digits(n / 16).push(hex_digit(n % 16))
    }
}

/// A number in uppercase hexadecimal, padded with zeros to at least four digits (`{:04X}`).
pub open spec fn hex4(n: nat) -> Seq<char> {
    let d = hex_digits(n);
    if d.len() < 4 {
        Seq::new((4 - d.len()) as nat, |i: int| '0') + d
    } else {
        d
    }
}

/// The message for a character that cannot be typed directly.
pub open spec fn untypable_message(c: char) -> Seq<char> {
    "contains U+"@ + hex4(c as nat) + " "@ + seq![c] + ", which is not directly typable"@
}

/// The errors of the first `n` items for built-in packs: the first character of each text
/// that cannot be typed directly.
pub open spec fn typeability_errors(p: ContentPackView, n: nat) -> Seq<ContentErrorView>
    decreases n,
{
    if n == 0 {
        seq![]
    } else {
        let it = p.items[n - 1];
        typeability_errors(p, (n - 1) as nat) + match first_untypable(p.language, it.text) {
            Some(c) => seq![error_view(p.id, Some(it.id), "text"@, untypable_message(c))],
            None => seq![],
        }
    }
}

/// The uppercase hexadecimal digit of a value below 16.
fn hex_digit_char(d: u32) -> (r: char)
    requires
        d < 16,
    ensures
        r == hex_digit(d as nat),
{
    if d < 10 {
        ((48 + d) as u8) as char
    } else {
        ((55 + d) as u8) as char
    }
}

/// The uppercase hexadecimal digits of a number.
fn hex_digits_of(n: u32) -> (r: Vec<char>)
    ensures
        r@ == hex_digits(n as nat),
    decreases n,
{
    if n < 16 {
        let mut v: Vec<char> = Vec::new();
        v.push(hex_digit_char(n));
        assert(v@ =~= seq![hex_digit(n as nat)]);
        v
    } else {
        let mut v = hex_digits_of(n / 16);
        v.push(hex_digit_char(n % 16));
        v
    }
}

/// Builds the message for a character that cannot be typed directly.
fn untypable_message_of(c: char) -> (r: String)
    ensures
        r@ == untypable_message(c),
{
    let digits = hex_digits_of(c as u32);
    let mut message = "contains U+".to_owned();
    let missing: usize = if digits.len() < 4 {
        4 - digits.len()
    } else {
        0
    };
    let mut pad = 0usize;
    let ghost start = message@;
    while pad < missing
        invariant
            pad <= missing,
            message@ == start + Seq::new(pad as nat, |i: int| '0'),
            digits@ == hex_digits(c as nat),
        decreases missing - pad,
    {
        push_char(&mut message, '0');
        pad += 1;
        assert(message@ =~= start + Seq::new(pad as nat, |i: int| '0'));
    }
    let ghost padded = message@;
    for k in 0..digits.len()
        invariant
            message@ == padded + digits@.subrange(0, k as int),
    {
        push_char(&mut message, digits[k]);
        assert(message@ =~= padded + digits@.subrange(0, k + 1));
    }
    assert(digits@.subrange(0, digits@.len() as int) =~= digits@);
    assert(message@ =~= start + hex4(c as nat)) by {
        if digits@.len() < 4 {
            assert(pad == 4 - digits@.len());
        } else {
            assert(pad == 0);
            assert(Seq::new(0, |i: int| '0') =~= Seq::<char>::empty());
        }
    }
    push_str(&mut message, " ");
    push_char(&mut message, c);
    push_str(&mut message, ", which is not directly typable");
    assert(message@ =~= untypable_message(c));
    message
}

/// Whether a character can be typed directly in the language.
fn is_typable(language: Language, c: char) -> (r: bool)
    ensures
        r == typable(language, c),
{
    c == '\n' || c == ' ' || is_ascii_graphic(c) || (language == Language::Ko && 0xac00
        <= (c as u32) && (c as u32) <= 0xd7a3)
}

/// The first character of a text that cannot be typed directly.
fn find_untypable(language: Language, text: &str) -> (r: Option<char>)
    ensures
        r == first_untypable(language, text@),
{
    let ghost s = text@;
    assert(s.subrange(0, s.len() as int) =~= s);
    for c in it: text.chars()
        invariant
            it.seq() == s,
            s == text@,
            first_untypable(language, s) == first_untypable(
                language,
                s.subrange(it.index() as int, s.len() as int),
            ),
    {
        let ghost k = it.index();
        assert(s.subrange(k as int, s.len() as int).drop_first() =~= s.subrange(
            k + 1,
            s.len() as int,
        ));
        assert(s.subrange(k as int, s.len() as int)[0] == s[k as int]);
        assert(c == s[k as int]);
        if !is_typable(language, c) {
            return Some(c);
        }
    }
    assert(s.subrange(s.len() as int, s.len() as int) =~= Seq::<char>::empty());
    None
}

/// Reports, for each item of a built-in pack, the first character of its text that cannot be
/// typed directly on the pack language's keyboard.
pub fn validate_builtin_typeability(pack: &ContentPack) -> (errors: Vec<ContentError>)
    ensures
        error_views(errors@) == typeability_errors(pack@, pack@.items.len()),
{
    let mut errors: Vec<ContentError> = Vec::new();
    for i in 0..pack.items.len()
        invariant
            error_views(errors@) == typeability_errors(pack@, i as nat),
    {
        let item = &pack.items[i];
        assert(pack@.items[i as int] == item@);
        match find_untypable(pack.language, item.text.as_str()) {
            Some(c) => {
                push_error(
                    &mut errors,
                    ContentError {
                        pack_id: pack.id.clone(),
                        item_id: Some(item.id.clone()),
                        field: "text".to_owned(),
                        message: untypable_message_of(c),
                    },
                );
            },
            None => {},
        }
        assert(error_views(errors@) =~= typeability_errors(pack@, (i + 1) as nat));
    }
    errors
}

/// The summary of a list of errors: each `field: message`, joined by `; `.
pub open spec fn joined_errors(errors: Seq<ContentErrorView>) -> Seq<char>
    decreases errors.len(),
{
    if errors.len() == 0 {
        seq![]
    } else if errors.len() == 1 {
        errors[0].field + ": "@ + errors[0].message
    } else {
        joined_errors(errors.drop_last()) + "; "@ + errors.last().field + ": "@ + errors.last().message
    }
}

/// Summarizes a list of errors as `field: message` entries joined by `; `.
pub fn format_errors(errors: &Vec<ContentError>) -> (r: String)
    ensures
        r@ == joined_errors(error_views(errors@)),
{
    let mut out = String::new();
    for i in 0..errors.len()
        invariant
            out@ == joined_errors(error_views(errors@.subrange(0, i as int))),
    {
        let ghost before = error_views(errors@.subrange(0, i as int));
        let ghost after = error_views(errors@.subrange(0, i + 1));
        assert(after.drop_last() =~= before);
        if i > 0 {
            push_str(&mut out, "; ");
        }
        push_str(&mut out, errors[i].field.as_str());
        push_str(&mut out, ": ");
        push_str(&mut out, errors[i].message.as_str());
        assert(out@ =~= joined_errors(after));
    }
    assert(errors@.subrange(0, errors@.len() as int) =~= errors@);
    out
}

} // verus!
