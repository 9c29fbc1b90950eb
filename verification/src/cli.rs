//! The command surface: one plain type per subcommand, and the catalog
//! operations the field-modification commands perform.

use crate::catalog::Catalog;
use crate::catalog::add_missing_tags;
use crate::catalog::has_doc_id;
use crate::catalog::has_doc_title;
use crate::catalog::has_tag_value;
use crate::document::DatabaseDoc;
use crate::document::Document;
use crate::document::DocView;
use crate::error::CatalogError;
use crate::text::join_comma;
use crate::text::token_list;
use vstd::prelude::*;

verus! {

/// The whole command line: one entity, one operation.
#[derive(Debug)]
pub struct Cli {
    pub entity_type: EntityType,
}

/// Which entity an invocation works on.
#[derive(Debug)]
pub enum EntityType {
    Tag(TagCmd),
    Document(DocCmd),
}

/// An operation on tag records.
#[derive(Debug)]
pub struct TagCmd {
    pub command: TagSubCmd,
}

/// The tag operations.
#[derive(Debug)]
pub enum TagSubCmd {
    Add(AddTag),
    Modify(ModifyTag),
    Delete(DeleteTag),
    List,
}

/// Adds one or multiple tags; lists are comma separated.
#[derive(Debug)]
pub struct AddTag {
    pub value: String,
}

/// Modifies a tag record.
#[derive(Debug)]
pub struct ModifyTag {
    pub method: ModifyTagSubCmd,
}

/// How the tag record to modify is identified.
#[derive(Debug)]
pub enum ModifyTagSubCmd {
    ById(ModifyTagById),
    ByValue(ModifyTagByValue),
}

/// Renames the tag with a given id.
#[derive(Debug)]
pub struct ModifyTagById {
    pub id: u32,
    pub new_value: String,
}

/// Renames the tag carrying a given value.
#[derive(Debug)]
pub struct ModifyTagByValue {
    pub old_value: String,
    pub new_value: String,
}

/// Deletes a tag record, by id or by value.
#[derive(Debug)]
pub struct DeleteTag {
    pub id: Option<u32>,
    pub value: Option<String>,
}

/// An operation on document records.
#[derive(Debug)]
pub struct DocCmd {
    pub command: DocSubCmd,
}

/// The document operations.
#[derive(Debug)]
pub enum DocSubCmd {
    Add(AddDoc),
    Modify(ModifyDoc),
    Delete(DeleteDoc),
    List,
    Open(OpenDoc),
}

/// Adds one or multiple document records.
#[derive(Debug)]
pub struct AddDoc {
    pub source: AddDocSubCmd,
}

/// A single record from options, or a batch from a TOML file.
#[derive(Debug)]
pub enum AddDocSubCmd {
    Single(SingleDoc),
    FromToml(AddDocTomlPath),
}

/// The location of a TOML file describing document records.
#[derive(Debug)]
pub struct AddDocTomlPath {
    pub path: String,
}

/// A single document record entered field by field.
#[derive(Debug)]
pub struct SingleDoc {
    pub title: String,
    pub author: String,
    pub year: u16,
    pub publication: String,
    pub volume: u16,
    pub tags: String,
    pub doi: String,
    pub path: String,
}

impl SingleDoc {
    /// The record this input denotes, not yet stored.
    pub fn into_document(self) -> (r: Document)
        ensures
            r.id == None::<u32>,
            r.title@ == self.title@,
            r.author@ == self.author@,
            r.year == self.year,
            r.publication@ == self.publication@,
            r.volume == self.volume,
            r.tags@ == self.tags@,
            r.doi@ == self.doi@,
            r.path@ == self.path@,
    {
        Document {
            id: None,
            title: self.title,
            author: self.author,
            year: self.year,
            publication: self.publication,
            volume: self.volume,
            tags: self.tags,
            doi: self.doi,
            path: self.path,
        }
    }
}

/// Modifies stored document information.
#[derive(Debug)]
pub struct ModifyDoc {
    pub method: ModifyDocSubCmd,
}

/// How the document record to modify is identified.
#[derive(Debug)]
pub enum ModifyDocSubCmd {
    ById(ModifyFieldById),
    ByTitle(ModifyFieldByTitle),
}

/// Field changes for the document with a given id; only the given fields
/// change.
#[derive(Debug)]
pub struct ModifyFieldById {
    pub id: u32,
    pub title: Option<String>,
    pub author: Option<String>,
    pub year: Option<u16>,
    pub publication: Option<String>,
    pub volume: Option<u16>,
    pub tags: Option<String>,
    pub doi: Option<String>,
}

/// The row `row` with the changes of `m` applied: given fields replace
/// the stored ones, a given tag string is stored in canonical form.
pub open spec fn row_with_changes_by_id(m: ModifyFieldById, row: DocView) -> DocView {
    DocView {
        id: row.id,
        title: match m.title {
            Some(t) => t@,
            None => row.title,
        },
        author: match m.author {
            Some(a) => a@,
            None => row.author,
        },
        year: match m.year {
            Some(y) => y,
            None => row.year,
        },
        publication: match m.publication {
            Some(p) => p@,
            None => row.publication,
        },
        volume: match m.volume {
            Some(v) => v,
            None => row.volume,
        },
        tags: match m.tags {
            Some(ts) => join_comma(token_list(ts@)),
            None => row.tags,
        },
        doi: match m.doi {
            Some(d) => d@,
            None => row.doi,
        },
        uuid: row.uuid,
    }
}

impl ModifyFieldById {
    /// Applies the given field changes to the document with this id.
    /// Tag tokens of a given tag string are created in the tag table if
    /// absent; a given title must not be carried by another document.
    pub fn update_doc(self, cat: &mut Catalog) -> (r: Result<(), CatalogError>)
        requires
            old(cat)@.wf(),
        ensures
            final(cat)@.wf(),
            final(cat)@.next_doc_id == old(cat)@.next_doc_id,
            ({
                let exhausted = match self.tags {
                    Some(ts) => old(cat)@.next_tag_id + token_list(ts@).len() > u32::MAX,
                    None => false,
                };
                let collides = match self.title {
                    Some(t) => exists|j: int|
                        0 <= j < old(cat)@.docs.len() && (#[trigger] old(cat)@.docs[j]).title
                            == t@ && old(cat)@.docs[j].id != self.id,
                    None => false,
                };
                &&& (r == Err::<(), CatalogError>(CatalogError::NotFound) <==> !has_doc_id(
                    old(cat)@.docs,
                    self.id,
                ))
                &&& (r == Err::<(), CatalogError>(CatalogError::IdExhausted) <==> has_doc_id(
                    old(cat)@.docs,
                    self.id,
                ) && exhausted)
                &&& (r == Err::<(), CatalogError>(CatalogError::DuplicateValue) <==> has_doc_id(
                    old(cat)@.docs,
                    self.id,
                ) && !exhausted && collides)
                &&& r matches Err(e) ==> final(cat)@ == old(cat)@ && (e == CatalogError::NotFound
                    || e == CatalogError::IdExhausted || e == CatalogError::DuplicateValue)
                &&& r is Ok ==> {
                    &&& exists|i: int|
                        0 <= i < old(cat)@.docs.len() && (#[trigger] old(cat)@.docs[i]).id
                            == self.id && final(cat)@.docs == old(cat)@.docs.update(
                            i,
                            row_with_changes_by_id(self, old(cat)@.docs[i]),
                        )
                    &&& match self.tags {
                        Some(ts) => final(cat)@.tags == add_missing_tags(
                            old(cat)@.tags,
                            old(cat)@.next_tag_id as int,
                            token_list(ts@),
                        ).0 && final(cat)@.next_tag_id as int == add_missing_tags(
                            old(cat)@.tags,
                            old(cat)@.next_tag_id as int,
                            token_list(ts@),
                        ).1,
                        None => final(cat)@.tags == old(cat)@.tags && final(cat)@.next_tag_id
                            == old(cat)@.next_tag_id,
                    }
                }
            }),
    {
        let i = match cat.find_doc_by_id(self.id) {
            Some(i) => i,
            None => {
                return Err(CatalogError::NotFound);
            },
        };
        let toks = match &self.tags {
            Some(ts) => {
                let toks = crate::text::tokens_of(ts.as_str());
                if toks.len() > cat.tag_ids_left() as usize {
                    return Err(CatalogError::IdExhausted);
                }
                Some(toks)
            },
            None => None,
        };
        match &self.title {
            Some(t) => {
                match cat.find_doc_by_title(t) {
                    Some(j) => {
                        if !(cat.doc_row(j).id == self.id) {
                            proof {
                                assert(cat@.docs[j as int].title == self.title->0@
                                    && cat@.docs[j as int].id != self.id);
                            }
                            return Err(CatalogError::DuplicateValue);
                        }
                        proof {
                            assert forall|j2: int|
                                0 <= j2 < cat@.docs.len() && (#[trigger] cat@.docs[j2]).title
                                    == self.title->0@ implies cat@.docs[j2].id == self.id by {
                                if j2 != j {
                                    assert(cat@.docs[j2].title != cat@.docs[j as int].title);
                                }
                            }
                        }
                    },
                    None => (),
                }
            },
            None => (),
        }
        let ghost c0 = cat@;
        let row = cat.doc_row(i).duplicate();
        let mut row = row;
        match self.title {
            Some(t) => {
                row.title = t;
            },
            None => (),
        }
        match self.author {
            Some(a) => {
                row.author = a;
            },
            None => (),
        }
        match self.year {
            Some(y) => {
                row.year = y;
            },
            None => (),
        }
        match self.publication {
            Some(p) => {
                row.publication = p;
            },
            None => (),
        }
        match self.volume {
            Some(v) => {
                row.volume = v;
            },
            None => (),
        }
        match toks {
            Some(toks) => {
                crate::document::create_missing_tags(&toks, cat);
                row.tags = crate::text::join_strings(&toks);
            },
            None => (),
        }
        match self.doi {
            Some(d) => {
                row.doi = d;
            },
            None => (),
        }
        proof {
            assert(row@ == row_with_changes_by_id(self, c0.docs[i as int]));
            match self.tags {
                Some(ts) => {
                    crate::text::lemma_token_list_entries(ts@);
                    crate::text::lemma_token_list_of_join(token_list(ts@));
                    crate::text::lemma_nonempty_filter_all(token_list(ts@));
                    assert(token_list(row@.tags) == token_list(ts@));
                },
                None => {
                    assert(crate::text::canonical_tags(row@.tags));
                },
            }
            assert forall|k: int| 0 <= k < token_list(row@.tags).len() implies has_tag_value(
                cat@.tags,
                #[trigger] token_list(row@.tags)[k],
            ) by {
                match self.tags {
                    Some(ts) => {},
                    None => {
                        assert(has_tag_value(c0.tags, token_list(c0.docs[i as int].tags)[k]));
                        let w = choose|w: int|
                            0 <= w < c0.tags.len() && (#[trigger] c0.tags[w]).value == token_list(
                                c0.docs[i as int].tags,
                            )[k];
                        assert(cat@.tags[w].value == token_list(row@.tags)[k]);
                    },
                }
            }
            assert forall|j2: int|
                0 <= j2 < cat@.docs.len() && (#[trigger] cat@.docs[j2]).id != row@.id implies cat@
                .docs[j2].title != row@.title by {
                match self.title {
                    Some(t) => {},
                    None => {
                        if j2 != i {
                            assert(c0.docs[j2].title != c0.docs[i as int].title);
                        }
                    },
                }
            }
        }
        row.update(cat);
        proof {
            assert(has_doc_id(c0.docs, self.id)) by {
                assert(c0.docs[i as int].id == self.id);
            }
            let w = choose|w: int|
                0 <= w < c0.docs.len() && (#[trigger] c0.docs[w]).id == row@.id && cat@.docs
                    == c0.docs.update(w, (DocView { uuid: c0.docs[w].uuid, ..row@ }));
            if w != i as int {
                assert(c0.docs[w].id != c0.docs[i as int].id);
            }
            assert((DocView { uuid: c0.docs[i as int].uuid, ..row@ }) == row_with_changes_by_id(
                self,
                c0.docs[i as int],
            ));
            assert(cat@.docs == c0.docs.update(
                i as int,
                row_with_changes_by_id(self, c0.docs[i as int]),
            ));
        }
        Ok(())
    }
}

/// Field changes for the document with a given title; only the given
/// fields change, the title itself stays.
#[derive(Debug)]
pub struct ModifyFieldByTitle {
    pub title: String,
    pub author: Option<String>,
    pub year: Option<u16>,
    pub publication: Option<String>,
    pub volume: Option<u16>,
    pub tags: Option<String>,
    pub doi: Option<String>,
}

/// The row `row` with the changes of `m` applied.
pub open spec fn row_with_changes_by_title(m: ModifyFieldByTitle, row: DocView) -> DocView {
    DocView {
        id: row.id,
        title: row.title,
        author: match m.author {
            Some(a) => a@,
            None => row.author,
        },
        year: match m.year {
            Some(y) => y,
            None => row.year,
        },
        publication: match m.publication {
            Some(p) => p@,
            None => row.publication,
        },
        volume: match m.volume {
            Some(v) => v,
            None => row.volume,
        },
        tags: match m.tags {
            Some(ts) => join_comma(token_list(ts@)),
            None => row.tags,
        },
        doi: match m.doi {
            Some(d) => d@,
            None => row.doi,
        },
        uuid: row.uuid,
    }
}

impl ModifyFieldByTitle {
    /// Applies the given field changes to the document with this title;
    /// the match is exact.  Tag tokens of a given tag string are created
    /// in the tag table if absent.
    pub fn update_doc(self, cat: &mut Catalog) -> (r: Result<(), CatalogError>)
        requires
            old(cat)@.wf(),
        ensures
            final(cat)@.wf(),
            final(cat)@.next_doc_id == old(cat)@.next_doc_id,
            ({
                let exhausted = match self.tags {
                    Some(ts) => old(cat)@.next_tag_id + token_list(ts@).len() > u32::MAX,
                    None => false,
                };
                &&& (r == Err::<(), CatalogError>(CatalogError::NotFound) <==> !has_doc_title(
                    old(cat)@.docs,
                    self.title@,
                ))
                &&& (r == Err::<(), CatalogError>(CatalogError::IdExhausted) <==> has_doc_title(
                    old(cat)@.docs,
                    self.title@,
                ) && exhausted)
                &&& r matches Err(e) ==> final(cat)@ == old(cat)@ && (e == CatalogError::NotFound
                    || e == CatalogError::IdExhausted)
                &&& r is Ok ==> {
                    &&& exists|i: int|
                        0 <= i < old(cat)@.docs.len() && (#[trigger] old(cat)@.docs[i]).title
                            == self.title@ && final(cat)@.docs == old(cat)@.docs.update(
                            i,
                            row_with_changes_by_title(self, old(cat)@.docs[i]),
                        )
                    &&& match self.tags {
                        Some(ts) => final(cat)@.tags == add_missing_tags(
                            old(cat)@.tags,
                            old(cat)@.next_tag_id as int,
                            token_list(ts@),
                        ).0 && final(cat)@.next_tag_id as int == add_missing_tags(
                            old(cat)@.tags,
                            old(cat)@.next_tag_id as int,
                            token_list(ts@),
                        ).1,
                        None => final(cat)@.tags == old(cat)@.tags && final(cat)@.next_tag_id
                            == old(cat)@.next_tag_id,
                    }
                }
            }),
    {
        let i = match cat.find_doc_by_title(&self.title) {
            Some(i) => i,
            None => {
                return Err(CatalogError::NotFound);
            },
        };
        let toks = match &self.tags {
            Some(ts) => {
                let toks = crate::text::tokens_of(ts.as_str());
                if toks.len() > cat.tag_ids_left() as usize {
                    return Err(CatalogError::IdExhausted);
                }
                Some(toks)
            },
            None => None,
        };
        let ghost c0 = cat@;
        let row = cat.doc_row(i).duplicate();
        let mut row = row;
        match self.author {
            Some(a) => {
                row.author = a;
            },
            None => (),
        }
        match self.year {
            Some(y) => {
                row.year = y;
            },
            None => (),
        }
        match self.publication {
            Some(p) => {
                row.publication = p;
            },
            None => (),
        }
        match self.volume {
            Some(v) => {
                row.volume = v;
            },
            None => (),
        }
        match toks {
            Some(toks) => {
                crate::document::create_missing_tags(&toks, cat);
                row.tags = crate::text::join_strings(&toks);
            },
            None => (),
        }
        match self.doi {
            Some(d) => {
                row.doi = d;
            },
            None => (),
        }
        proof {
            assert(row@ == row_with_changes_by_title(self, c0.docs[i as int]));
            match self.tags {
                Some(ts) => {
                    crate::text::lemma_token_list_entries(ts@);
                    crate::text::lemma_token_list_of_join(token_list(ts@));
                    crate::text::lemma_nonempty_filter_all(token_list(ts@));
                    assert(token_list(row@.tags) == token_list(ts@));
                },
                None => {
                    assert(crate::text::canonical_tags(row@.tags));
                },
            }
            assert forall|k: int| 0 <= k < token_list(row@.tags).len() implies has_tag_value(
                cat@.tags,
                #[trigger] token_list(row@.tags)[k],
            ) by {
                match self.tags {
                    Some(ts) => {},
                    None => {
                        assert(has_tag_value(c0.tags, token_list(c0.docs[i as int].tags)[k]));
                        let w = choose|w: int|
                            0 <= w < c0.tags.len() && (#[trigger] c0.tags[w]).value == token_list(
                                c0.docs[i as int].tags,
                            )[k];
                        assert(cat@.tags[w].value == token_list(row@.tags)[k]);
                    },
                }
            }
            assert forall|j2: int|
                0 <= j2 < cat@.docs.len() && (#[trigger] cat@.docs[j2]).id != row@.id implies cat@
                .docs[j2].title != row@.title by {
                if j2 != i {
                    assert(c0.docs[j2].title != c0.docs[i as int].title);
                }
            }
        }
        row.update(cat);
        proof {
            assert(has_doc_title(c0.docs, self.title@)) by {
                assert(c0.docs[i as int].title == self.title@);
            }
            assert(has_doc_id(c0.docs, row@.id)) by {
                assert(c0.docs[i as int].id == row@.id);
            }
            let w = choose|w: int|
                0 <= w < c0.docs.len() && (#[trigger] c0.docs[w]).id == row@.id && cat@.docs
                    == c0.docs.update(w, (DocView { uuid: c0.docs[w].uuid, ..row@ }));
            if w != i as int {
                assert(c0.docs[w].id != c0.docs[i as int].id);
            }
            assert((DocView { uuid: c0.docs[i as int].uuid, ..row@ }) == row_with_changes_by_title(
                self,
                c0.docs[i as int],
            ));
            assert(cat@.docs == c0.docs.update(
                i as int,
                row_with_changes_by_title(self, c0.docs[i as int]),
            ));
        }
        Ok(())
    }
}

/// Deletes a document record, by id or by title.
#[derive(Debug)]
pub struct DeleteDoc {
    pub id: Option<u32>,
    pub title: Option<String>,
}

/// Opens a stored document, by id or by title.
#[derive(Debug)]
pub struct OpenDoc {
    pub id: Option<u32>,
    pub title: Option<String>,
}

} // verus!
