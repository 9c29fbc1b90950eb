//! Tests of the catalog: tag and document CRUD, the consistency
//! synchronizer, validation, and the restore path.

use odinsource::catalog::get_docs;
use odinsource::catalog::get_tags;
use odinsource::catalog::Catalog;
use odinsource::cli::ModifyFieldById;
use odinsource::cli::ModifyFieldByTitle;
use odinsource::cli::SingleDoc;
use odinsource::document::resolve_content_path;
use odinsource::document::DatabaseDoc;
use odinsource::document::DocList;
use odinsource::document::Document;
use odinsource::document::DocumentBuilder;
use odinsource::document::TomlDocuments;
use odinsource::error::CatalogError;
use odinsource::tag::DatabaseTag;
use odinsource::tag::Tag;
use odinsource::tag::TagInputList;

fn doc(title: &str, tags: &str) -> Document {
    DocumentBuilder::new(title, "paper.pdf")
        .tags(tags)
        .build(true)
        .unwrap()
}

#[test]
fn empty_catalog_has_no_rows() {
    let cat = Catalog::new();
    assert_eq!(cat.tag_count(), 0);
    assert_eq!(cat.doc_count(), 0);
}

#[test]
fn tag_insert_twice_returns_same_id() {
    let mut cat = Catalog::new();
    let first = DatabaseTag::from_insert(Tag::new("ML"), &mut cat).unwrap();
    let second = DatabaseTag::from_insert(Tag::new("ML"), &mut cat).unwrap();
    assert_eq!(first.id, second.id);
    assert_eq!(first.value, "ml");
    assert_eq!(cat.tag_count(), 1);
}

#[test]
fn tag_lookup_by_id_and_value() {
    let mut cat = Catalog::new();
    let row = DatabaseTag::from_insert(Tag::new("ml"), &mut cat).unwrap();
    assert_eq!(DatabaseTag::from_id(row.id, &cat).unwrap().value, "ml");
    assert_eq!(DatabaseTag::from_value("ml", &cat).unwrap().id, row.id);
    assert!(DatabaseTag::from_id(99, &cat).is_none());
    assert!(DatabaseTag::from_value("nlp", &cat).is_none());
}

#[test]
fn tag_from_id_miss_is_not_found() {
    let cat = Catalog::new();
    assert_eq!(Tag::from_id(7, &cat).unwrap_err(), CatalogError::NotFound);
}

#[test]
fn tag_batch_add_skips_existing_values() {
    let mut cat = Catalog::new();
    let list = TagInputList::parse("a,b");
    assert!(list.add_to_db(&mut cat).is_ok());
    assert_eq!(cat.tag_count(), 2);
    let a_id = DatabaseTag::from_value("a", &cat).unwrap().id;
    // a value already stored is skipped, not an error
    let again = TagInputList::parse("c,a");
    assert!(again.add_to_db(&mut cat).is_ok());
    assert_eq!(cat.tag_count(), 3);
    assert_eq!(DatabaseTag::from_value("a", &cat).unwrap().id, a_id);
    assert!(DatabaseTag::from_value("c", &cat).is_some());
}

#[test]
fn tag_input_list_parses_and_lowercases() {
    let list = TagInputList::parse(" A ,B,,c ");
    assert_eq!(
        list.tag_values(),
        &vec!["a".to_string(), "b".to_string(), "c".to_string()]
    );
    let tags = list.as_tags();
    assert_eq!(tags.len(), 3);
    assert_eq!(tags[0].value, "a");
    assert!(tags[0].id.is_none());
}

#[test]
fn document_roundtrip_by_id() {
    let mut cat = Catalog::new();
    let d = DocumentBuilder::new("Paper A", "files/paper.pdf")
        .author("Ada")
        .publication("Journal")
        .volume(3)
        .year(1999)
        .tags("ml,systems")
        .doi("10.1/xyz")
        .build(true)
        .unwrap();
    let row = DatabaseDoc::from_insert(d, &mut cat).unwrap();
    assert_eq!(row.id, 1);
    assert_eq!(row.uuid.len(), 36);
    let back = DatabaseDoc::from_id(row.id, &cat).unwrap();
    assert_eq!(back.title, "paper a");
    assert_eq!(back.author, "ada");
    assert_eq!(back.publication, "journal");
    assert_eq!(back.volume, 3);
    assert_eq!(back.year, 1999);
    assert_eq!(back.doi, "10.1/xyz");
    let mut toks = odinsource::text::tokens_of(&back.tags);
    toks.sort();
    assert_eq!(toks, vec!["ml".to_string(), "systems".to_string()]);
}

#[test]
fn duplicate_title_returns_existing_row() {
    let mut cat = Catalog::new();
    let first = DatabaseDoc::from_insert(doc("p1", "a"), &mut cat).unwrap();
    let second = DatabaseDoc::from_insert(doc("p1", "b"), &mut cat).unwrap();
    assert_eq!(first.id, second.id);
    assert_eq!(cat.doc_count(), 1);
    // the second call did not touch the tag table either
    assert!(DatabaseTag::from_value("b", &cat).is_none());
}

#[test]
fn insert_creates_missing_tags_only() {
    let mut cat = Catalog::new();
    let a = DatabaseTag::from_insert(Tag::new("a"), &mut cat).unwrap();
    DatabaseDoc::from_insert(doc("p1", "a,b"), &mut cat).unwrap();
    let tags = get_tags(&cat);
    assert_eq!(tags.len(), 2);
    assert_eq!(tags[0].id, a.id);
    assert_eq!(tags[0].value, "a");
    assert_eq!(tags[1].value, "b");
    assert!(tags[1].id > a.id);
}

#[test]
fn rename_scenario_updates_documents_and_tag_row() {
    let mut cat = Catalog::new();
    let ml = DatabaseTag::from_insert(Tag::new("ml"), &mut cat).unwrap();
    assert_eq!(ml.id, 1);
    DatabaseDoc::from_insert(doc("p1", "ml,nlp"), &mut cat).unwrap();
    let nlp = DatabaseTag::from_value("nlp", &cat).unwrap();
    assert_eq!(nlp.id, 2);
    assert_eq!(get_docs(&cat)[0].tags, "ml,nlp");

    let old_value = Tag::from_id(1, &cat).unwrap().value;
    DocList::modify_tag(&old_value, "machine-learning", &mut cat).unwrap();
    assert_eq!(get_docs(&cat)[0].tags, "machine-learning,nlp");
    let renamed = DatabaseTag::from_id(1, &cat).unwrap();
    assert_eq!(renamed.value, "machine-learning");
}

#[test]
fn rename_moves_substring_matches() {
    let mut cat = Catalog::new();
    DatabaseDoc::from_insert(doc("p1", "alpha,core"), &mut cat).unwrap();
    DatabaseDoc::from_insert(doc("p2", "core"), &mut cat).unwrap();
    DocList::modify_tag("alpha", "beta", &mut cat).unwrap();
    let hits = DocList::from_tag("beta", &cat);
    assert_eq!(hits.0.len(), 1);
    assert_eq!(hits.0[0].title, "p1");
    assert_eq!(DocList::from_tag("alpha", &cat).0.len(), 0);
}

#[test]
fn rename_rejects_unfit_new_value() {
    let mut cat = Catalog::new();
    DatabaseTag::from_insert(Tag::new("a"), &mut cat).unwrap();
    assert_eq!(
        DocList::modify_tag("a", "x,y", &mut cat).unwrap_err(),
        CatalogError::InvalidValue
    );
    assert_eq!(
        DocList::modify_tag("a", " ", &mut cat).unwrap_err(),
        CatalogError::InvalidValue
    );
    assert_eq!(
        DocList::modify_tag("", "b", &mut cat).unwrap_err(),
        CatalogError::InvalidValue
    );
}

#[test]
fn rename_rejects_collision_with_stored_value() {
    let mut cat = Catalog::new();
    DatabaseTag::from_insert(Tag::new("a"), &mut cat).unwrap();
    DatabaseTag::from_insert(Tag::new("b"), &mut cat).unwrap();
    assert_eq!(
        DocList::modify_tag("a", "b", &mut cat).unwrap_err(),
        CatalogError::DuplicateValue
    );
    // renaming a value to itself is a no-op, not a collision
    assert!(DocList::modify_tag("a", "a", &mut cat).is_ok());
}

#[test]
fn delete_tag_scrubs_documents() {
    let mut cat = Catalog::new();
    DatabaseDoc::from_insert(doc("p1", "a,b,c"), &mut cat).unwrap();
    DatabaseDoc::from_insert(doc("p2", "b"), &mut cat).unwrap();
    Tag::new("b").delete(&mut cat);
    let docs = get_docs(&cat);
    assert_eq!(docs[0].tags, "a,c");
    assert_eq!(docs[1].tags, "");
    assert!(DatabaseTag::from_value("b", &cat).is_none());
    assert!(DatabaseTag::from_value("a", &cat).is_some());
    assert!(!cat.tag_in_use(&"b".to_string()));
}

#[test]
fn deleting_missing_tag_is_noop() {
    let mut cat = Catalog::new();
    DatabaseTag::from_insert(Tag::new("a"), &mut cat).unwrap();
    Tag::new("zzz").delete(&mut cat);
    assert_eq!(cat.tag_count(), 1);
}

#[test]
fn tag_input_list_delete_scrubs_all_values() {
    let mut cat = Catalog::new();
    DatabaseDoc::from_insert(doc("p1", "a,b,c"), &mut cat).unwrap();
    TagInputList::parse("a,c").delete_from_db(&mut cat);
    assert_eq!(get_docs(&cat)[0].tags, "b");
    assert_eq!(cat.tag_count(), 1);
}

#[test]
fn deleted_document_is_gone() {
    let mut cat = Catalog::new();
    let row = DatabaseDoc::from_insert(doc("p1", "a"), &mut cat).unwrap();
    let removed = Document::delete_from_title("P1", &mut cat).unwrap();
    assert_eq!(removed.uuid, row.uuid);
    assert_eq!(removed.uuid.len(), 36);
    assert!(DatabaseDoc::from_id(row.id, &cat).is_none());
    assert_eq!(cat.doc_count(), 0);
    // deleting again is a no-op
    assert!(Document::delete_from_title("p1", &mut cat).is_none());
}

#[test]
fn modify_by_id_changes_only_given_fields() {
    let mut cat = Catalog::new();
    let row = DatabaseDoc::from_insert(doc("p1", "a"), &mut cat).unwrap();
    let cmd = ModifyFieldById {
        id: row.id,
        title: None,
        author: Some("grace".to_string()),
        year: Some(2001),
        publication: None,
        volume: None,
        tags: Some("x, y".to_string()),
        doi: None,
    };
    cmd.update_doc(&mut cat).unwrap();
    let back = DatabaseDoc::from_id(row.id, &cat).unwrap();
    assert_eq!(back.title, "p1");
    assert_eq!(back.author, "grace");
    assert_eq!(back.year, 2001);
    assert_eq!(back.tags, "x,y");
    assert!(DatabaseTag::from_value("x", &cat).is_some());
    assert!(DatabaseTag::from_value("y", &cat).is_some());
}

#[test]
fn modify_by_id_rejects_title_collision() {
    let mut cat = Catalog::new();
    DatabaseDoc::from_insert(doc("p1", ""), &mut cat).unwrap();
    let row2 = DatabaseDoc::from_insert(doc("p2", ""), &mut cat).unwrap();
    let cmd = ModifyFieldById {
        id: row2.id,
        title: Some("p1".to_string()),
        author: None,
        year: None,
        publication: None,
        volume: None,
        tags: None,
        doi: None,
    };
    assert_eq!(cmd.update_doc(&mut cat).unwrap_err(), CatalogError::DuplicateValue);
}

#[test]
fn modify_by_id_miss_is_not_found() {
    let mut cat = Catalog::new();
    let cmd = ModifyFieldById {
        id: 42,
        title: None,
        author: None,
        year: None,
        publication: None,
        volume: None,
        tags: None,
        doi: None,
    };
    assert_eq!(cmd.update_doc(&mut cat).unwrap_err(), CatalogError::NotFound);
}

#[test]
fn modify_by_title_changes_fields() {
    let mut cat = Catalog::new();
    DatabaseDoc::from_insert(doc("p1", "a"), &mut cat).unwrap();
    let cmd = ModifyFieldByTitle {
        title: "p1".to_string(),
        author: None,
        year: None,
        publication: Some("acm".to_string()),
        volume: Some(9),
        tags: None,
        doi: Some("d".to_string()),
    };
    cmd.update_doc(&mut cat).unwrap();
    let back = get_docs(&cat)[0].duplicate();
    assert_eq!(back.publication, "acm");
    assert_eq!(back.volume, 9);
    assert_eq!(back.doi, "d");
    assert_eq!(back.tags, "a");
}

#[test]
fn substring_filter_also_hits_inside_longer_tags() {
    let mut cat = Catalog::new();
    DatabaseDoc::from_insert(doc("p1", "html"), &mut cat).unwrap();
    DatabaseDoc::from_insert(doc("p2", "ml"), &mut cat).unwrap();
    DatabaseDoc::from_insert(doc("p3", "sql"), &mut cat).unwrap();
    let hits = DocList::from_tag("ML", &cat);
    assert_eq!(hits.0.len(), 2);
    assert_eq!(hits.0[0].title, "p1");
    assert_eq!(hits.0[1].title, "p2");
}

#[test]
fn doc_list_lists_all() {
    let mut cat = Catalog::new();
    DatabaseDoc::from_insert(doc("p1", ""), &mut cat).unwrap();
    DatabaseDoc::from_insert(doc("p2", ""), &mut cat).unwrap();
    assert_eq!(DocList::get_all(&cat).0.len(), 2);
}

#[test]
fn toml_batch_inserts_all() {
    let mut cat = Catalog::new();
    let batch = TomlDocuments { documents: vec![doc("p1", "a"), doc("p2", "a,b")] };
    batch.add_to_db(&mut cat).unwrap();
    assert_eq!(cat.doc_count(), 2);
    assert_eq!(cat.tag_count(), 2);
}

#[test]
fn restore_rebuilds_a_catalog() {
    let mut cat = Catalog::new();
    DatabaseTag::from_insert(Tag::new("a"), &mut cat).unwrap();
    DatabaseDoc::from_insert(doc("p1", "a,b"), &mut cat).unwrap();
    let cat2 = Catalog::restore(get_tags(&cat), get_docs(&cat)).unwrap();
    assert_eq!(cat2.tag_count(), 2);
    assert_eq!(cat2.doc_count(), 1);
    // fresh ids resume above the stored ones
    let t = DatabaseTag::from_insert(Tag::new("c"), &mut Catalog::restore(
        get_tags(&cat),
        get_docs(&cat),
    ).unwrap()).unwrap();
    assert_eq!(t.id, 3);
}

#[test]
fn restore_rejects_invalid_rows() {
    let dup = vec![
        DatabaseTag { id: 1, value: "a".to_string() },
        DatabaseTag { id: 2, value: "a".to_string() },
    ];
    assert_eq!(
        Catalog::restore(dup, Vec::new()).unwrap_err(),
        CatalogError::InvalidValue
    );
    let orphan = vec![DatabaseDoc {
        id: 1,
        title: "p".to_string(),
        author: String::new(),
        year: 0,
        publication: String::new(),
        volume: 0,
        tags: "ghost".to_string(),
        doi: String::new(),
        uuid: "u".to_string(),
    }];
    assert_eq!(
        Catalog::restore(Vec::new(), orphan).unwrap_err(),
        CatalogError::InvalidValue
    );
}

#[test]
fn source_paths_are_checked_by_extension() {
    assert!(Document::verify_path("a.pdf", true).is_ok());
    assert_eq!(
        Document::verify_path("a.txt", true).unwrap_err(),
        CatalogError::InvalidSource
    );
    assert_eq!(
        Document::verify_path("a.pdf", false).unwrap_err(),
        CatalogError::InvalidSource
    );
    assert!(Document::verify_path(".pdf", true).is_err());
    assert!(Document::verify_path("dir/b.x.pdf", true).is_ok());
    assert!(Document::verify_path("dir.pdf/name", true).is_err());
    assert!(Document::new("T", "a.png", true).is_err());
    assert!(DocumentBuilder::new("T", "a.pdf").build(false).is_err());
}

#[test]
fn document_new_normalizes_title() {
    let d = Document::new("My Title", "a.pdf", true).unwrap();
    assert_eq!(d.title, "my title");
    assert_eq!(d.year, 0);
    assert_eq!(d.tags, "");
    assert!(d.id.is_none());
}

#[test]
fn input_is_lowercased_once() {
    assert_eq!(Document::input_to_lowercase("MiXeD").unwrap(), "mixed");
    assert_eq!(Document::default_u16(), 0);
    let t = Tag::new("UPPER");
    assert_eq!(t.value, "upper");
}

#[test]
fn content_paths_resolve_deterministically() {
    assert_eq!(resolve_content_path("store", "u1"), "store/u1.pdf");
    assert_eq!(resolve_content_path("store/", "u1"), "store/u1.pdf");
    assert_eq!(resolve_content_path("", "u1"), "u1.pdf");
    let row = DatabaseDoc {
        id: 1,
        title: "t".to_string(),
        author: String::new(),
        year: 0,
        publication: String::new(),
        volume: 0,
        tags: String::new(),
        doi: String::new(),
        uuid: "123456789012345678901234567890123456".to_string(),
    };
    assert_eq!(row.stored_file_name(), "123456789012345678901234567890123456.pdf");
    assert!(row.is_stored(true));
    assert!(!row.is_stored(false));
    assert_eq!(
        row.stored_path("store", true).unwrap(),
        "store/123456789012345678901234567890123456.pdf"
    );
    assert_eq!(
        row.stored_path("store", false).unwrap_err(),
        CatalogError::NotFound
    );
}

#[test]
fn stored_document_resolves_through_catalog() {
    let mut cat = Catalog::new();
    let row = DatabaseDoc::from_insert(doc("p1", ""), &mut cat).unwrap();
    let d = Document::from_id(row.id, &cat, "store").unwrap();
    assert_eq!(d.title, "p1");
    assert_eq!(d.path, format!("store/{}.pdf", row.uuid));
    let d2 = Document::from_title("P1", &cat, "store").unwrap();
    assert_eq!(d2.id, Some(row.id));
    assert_eq!(
        Document::from_id(99, &cat, "store").unwrap_err(),
        CatalogError::NotFound
    );
    let p = d.stored_path(&cat, "store", true).unwrap();
    assert_eq!(p, format!("store/{}.pdf", row.uuid));
    assert_eq!(
        d.stored_path(&cat, "store", false).unwrap_err(),
        CatalogError::NotFound
    );
}

#[test]
fn single_doc_converts_to_document() {
    let s = SingleDoc {
        title: "t".to_string(),
        author: "a".to_string(),
        year: 2000,
        publication: "p".to_string(),
        volume: 1,
        tags: "x".to_string(),
        doi: "d".to_string(),
        path: "f.pdf".to_string(),
    };
    let d = s.into_document();
    assert!(d.id.is_none());
    assert_eq!(d.title, "t");
    assert_eq!(d.year, 2000);
}

#[test]
fn error_messages_are_stable() {
    assert_eq!(CatalogError::NotFound.message(), "record not found");
    assert_eq!(
        CatalogError::InvalidSource.message(),
        "path does not reference a valid PDF"
    );
    assert_eq!(CatalogError::DuplicateValue.message(), "value already exists");
    assert_eq!(
        CatalogError::InvalidValue.message(),
        "tag value is empty, untrimmed, or contains a comma"
    );
    assert_eq!(CatalogError::IdExhausted.message(), "no fresh id is left");
}

#[test]
fn insert_lowercases_the_stored_tag_string() {
    let mut cat = Catalog::new();
    let d = Document {
        id: None,
        title: "p1".to_string(),
        author: String::new(),
        year: 0,
        publication: String::new(),
        volume: 0,
        tags: "ML, Systems".to_string(),
        doi: String::new(),
        path: "paper.pdf".to_string(),
    };
    let row = DatabaseDoc::from_insert(d, &mut cat).unwrap();
    assert_eq!(row.tags, "ml,systems");
    assert!(DatabaseTag::from_value("ml", &cat).is_some());
    assert!(DatabaseTag::from_value("ML", &cat).is_none());
}

#[test]
fn update_keeps_the_stored_content_identifier() {
    let mut cat = Catalog::new();
    let row = DatabaseDoc::from_insert(doc("p1", ""), &mut cat).unwrap();
    let mut changed = row.duplicate();
    changed.author = "ada".to_string();
    changed.uuid = "not-a-real-identifier".to_string();
    changed.update(&mut cat);
    let back = get_docs(&cat)[0].duplicate();
    assert_eq!(back.author, "ada");
    assert_eq!(back.uuid, row.uuid);
}

#[test]
fn fresh_content_ids_differ_between_inserts() {
    let mut cat = Catalog::new();
    let r1 = DatabaseDoc::from_insert(doc("p1", ""), &mut cat).unwrap();
    let r2 = DatabaseDoc::from_insert(doc("p2", ""), &mut cat).unwrap();
    assert_eq!(r1.uuid.len(), 36);
    assert_eq!(r2.uuid.len(), 36);
    assert_ne!(r1.uuid, r2.uuid);
}

#[test]
fn tag_insert_method_is_idempotent_too() {
    let mut cat = Catalog::new();
    Tag::new("A").insert(&mut cat).unwrap();
    Tag::new("a").insert(&mut cat).unwrap();
    assert_eq!(cat.tag_count(), 1);
    let row = DatabaseTag::from_tag(Tag::new("b"), &mut cat).unwrap();
    assert_eq!(row.value, "b");
    assert_eq!(cat.tag_count(), 2);
}

#[test]
fn tag_row_delete_removes_unreferenced_value() {
    let mut cat = Catalog::new();
    let row = DatabaseTag::from_insert(Tag::new("a"), &mut cat).unwrap();
    assert!(!cat.tag_in_use(&"a".to_string()));
    row.delete(&mut cat);
    assert_eq!(cat.tag_count(), 0);
}

#[test]
fn tag_row_converts_back_to_tag() {
    let mut cat = Catalog::new();
    let row = DatabaseTag::from_insert(Tag::new("a"), &mut cat).unwrap();
    let t = row.into_tag();
    assert_eq!(t.id, Some(1));
    assert_eq!(t.value, "a");
}

#[test]
fn row_update_replaces_matching_id_only() {
    let mut cat = Catalog::new();
    let row = DatabaseDoc::from_insert(doc("p1", ""), &mut cat).unwrap();
    let mut changed = row.duplicate();
    changed.author = "new author".to_string();
    changed.update(&mut cat);
    assert_eq!(get_docs(&cat)[0].author, "new author");
    let mut ghost_row = row.duplicate();
    ghost_row.id = 77;
    ghost_row.title = "other".to_string();
    ghost_row.update(&mut cat);
    assert_eq!(cat.doc_count(), 1);
    assert_eq!(get_docs(&cat)[0].author, "new author");
}

#[test]
fn document_insert_and_delete_by_record() {
    let mut cat = Catalog::new();
    let d = doc("p1", "a");
    let row = d.duplicate().insert(&mut cat).unwrap();
    assert_eq!(row.title, "p1");
    let removed = d.delete(&mut cat).unwrap();
    assert_eq!(removed.id, row.id);
    assert_eq!(cat.doc_count(), 0);
    // the tag table keeps the auto-created tag
    assert_eq!(cat.tag_count(), 1);
}

#[test]
fn row_level_doc_delete_by_title() {
    let mut cat = Catalog::new();
    let row = DatabaseDoc::from_insert(doc("p1", ""), &mut cat).unwrap();
    row.delete(&mut cat);
    assert_eq!(cat.doc_count(), 0);
}

#[test]
fn headroom_getters_report_id_space() {
    let cat = Catalog::new();
    assert_eq!(cat.tag_ids_left(), u32::MAX - 1);
    assert_eq!(cat.doc_ids_left(), u32::MAX - 1);
}
