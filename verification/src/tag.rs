//! Tag records: the canonical catalog of known tag values, each with a
//! stable numeric identifier.

use crate::catalog::Catalog;
use crate::catalog::CatalogView;
use crate::catalog::has_tag_id;
use crate::catalog::has_tag_value;
use crate::catalog::tag_referenced;
use crate::document::DocView;
use crate::document::scrub_docs;
use crate::error::CatalogError;
use crate::text::token_list;
use crate::text::lower_of;
use crate::text::nonempty_filter;
use crate::text::pieces;
use crate::text::to_lower;
use crate::text::trimmed;
use crate::text::trimmed_str;
use vstd::prelude::*;
use vstd::string::*;

verus! {

/// The mathematical value of one stored tag row.
pub ghost struct TagView {
    pub id: u32,
    pub value: Seq<char>,
}

/// A tag row as stored in the catalog: a stable id and a unique value.
#[derive(Debug, Hash)]
pub struct DatabaseTag {
    pub id: u32,
    pub value: String,
}

impl View for DatabaseTag {
    type V = TagView;

    open spec fn view(&self) -> TagView {
        TagView { id: self.id, value: self.value@ }
    }
}

impl DeepView for DatabaseTag {
    type V = TagView;

    open spec fn deep_view(&self) -> TagView {
        self@
    }
}

impl DatabaseTag {
    /// An identical copy of the row.
    pub fn duplicate(&self) -> (r: DatabaseTag)
        ensures
            r@ == self@,
    {
        DatabaseTag { id: self.id, value: self.value.clone() }
    }
}

impl DatabaseTag {
    /// The tag this row denotes.
    pub fn into_tag(self) -> (r: Tag)
        ensures
            r.id == Some(self@.id),
            r.value@ == self@.value,
    {
        Tag { id: Some(self.id), value: self.value }
    }

    /// The stored tag row with id `id`, if any.
    pub fn from_id(id: u32, cat: &Catalog) -> (r: Option<DatabaseTag>)
        ensures
            match r {
                Some(t) => t@.id == id && cat@.tags.contains(t@),
                None => !has_tag_id(cat@.tags, id),
            },
    {
        match cat.find_tag_by_id(id) {
            Some(i) => {
                let t = cat.tag_row(i).duplicate();
                proof {
                    assert(cat@.tags[i as int] == t@);
                }
                Some(t)
            },
            None => None,
        }
    }

    /// The stored tag row with value `value`, if any; the match is exact.
    pub fn from_value(value: &str, cat: &Catalog) -> (r: Option<DatabaseTag>)
        ensures
            match r {
                Some(t) => t@.value == value@ && cat@.tags.contains(t@),
                None => !has_tag_value(cat@.tags, value@),
            },
    {
        let vs = value.to_owned();
        match cat.find_tag_by_value(&vs) {
            Some(i) => {
                let t = cat.tag_row(i).duplicate();
                proof {
                    assert(cat@.tags[i as int] == t@);
                }
                Some(t)
            },
            None => None,
        }
    }

    /// Inserts the tag's value if it is absent, or returns the existing
    /// row: insertion is idempotent, a repeated value is not an error.
    /// The only failure is an exhausted id space.
    pub fn from_insert(tag: Tag, cat: &mut Catalog) -> (r: Result<DatabaseTag, CatalogError>)
        requires
            old(cat)@.wf(),
        ensures
            final(cat)@.wf(),
            final(cat)@.docs == old(cat)@.docs,
            final(cat)@.next_doc_id == old(cat)@.next_doc_id,
            r is Err <==> !has_tag_value(old(cat)@.tags, tag.value@) && old(cat)@.next_tag_id
                == u32::MAX,
            match r {
                Ok(t) => {
                    &&& t@.value == tag.value@
                    &&& if has_tag_value(old(cat)@.tags, tag.value@) {
                        final(cat)@ == old(cat)@ && old(cat)@.tags.contains(t@)
                    } else {
                        t@.id == old(cat)@.next_tag_id && final(cat)@.tags
                            == old(cat)@.tags.push(t@) && final(cat)@.next_tag_id == old(
                            cat,
                        )@.next_tag_id + 1
                    }
                },
                Err(e) => e == CatalogError::IdExhausted && final(cat)@ == old(cat)@,
            },
    {
        let Tag { id: _, value } = tag;
        match cat.find_tag_by_value(&value) {
            Some(i) => {
                let t = cat.tag_row(i).duplicate();
                proof {
                    assert(cat@.tags[i as int] == t@);
                }
                Ok(t)
            },
            None => {
                if cat.tag_ids_left() == 0 {
                    return Err(CatalogError::IdExhausted);
                }
                let ghost c0 = cat@;
                let t = cat.insert_tag_row(value);
                proof {
                    lemma_tag_push_wf(c0, cat@, t@);
                }
                Ok(t)
            },
        }
    }

    /// Same as inserting: looks the value up and creates the row if it is
    /// absent.
    pub fn from_tag(tag: Tag, cat: &mut Catalog) -> (r: Result<DatabaseTag, CatalogError>)
        requires
            old(cat)@.wf(),
        ensures
            final(cat)@.wf(),
            final(cat)@.docs == old(cat)@.docs,
            final(cat)@.next_doc_id == old(cat)@.next_doc_id,
            r is Err <==> !has_tag_value(old(cat)@.tags, tag.value@) && old(cat)@.next_tag_id
                == u32::MAX,
            match r {
                Ok(t) => {
                    &&& t@.value == tag.value@
                    &&& if has_tag_value(old(cat)@.tags, tag.value@) {
                        final(cat)@ == old(cat)@ && old(cat)@.tags.contains(t@)
                    } else {
                        t@.id == old(cat)@.next_tag_id && final(cat)@.tags
                            == old(cat)@.tags.push(t@) && final(cat)@.next_tag_id == old(
                            cat,
                        )@.next_tag_id + 1
                    }
                },
                Err(e) => e == CatalogError::IdExhausted && final(cat)@ == old(cat)@,
            },
    {
        Self::from_insert(tag, cat)
    }

    /// Removes this row from the tag table by its value.  The caller must
    /// first scrub the value from every document's tag string; deleting a
    /// value that is not stored is a no-op, not an error.
    pub fn delete(self, cat: &mut Catalog)
        requires
            old(cat)@.wf(),
            !tag_referenced(old(cat)@.docs, self.value@),
        ensures
            final(cat)@.wf(),
            final(cat)@.docs == old(cat)@.docs,
            final(cat)@.next_tag_id == old(cat)@.next_tag_id,
            final(cat)@.next_doc_id == old(cat)@.next_doc_id,
            !has_tag_value(final(cat)@.tags, self.value@),
            if has_tag_value(old(cat)@.tags, self.value@) {
                exists|i: int|
                    0 <= i < old(cat)@.tags.len() && (#[trigger] old(cat)@.tags[i]).value
                        == self.value@ && final(cat)@.tags == old(cat)@.tags.remove(i)
            } else {
                final(cat)@ == old(cat)@
            },
    {
        match cat.find_tag_by_value(&self.value) {
            Some(i) => {
                let ghost c0 = cat@;
                cat.remove_tag_row_at(i);
                proof {
                    lemma_tag_remove_wf(c0, cat@, i as int, self.value@);
                }
            },
            None => (),
        }
    }
}

/// Pushing a fresh row with the next id and an unseen value keeps the
/// catalog well formed.
proof fn lemma_tag_push_wf(c0: CatalogView, c1: CatalogView, t: TagView)
    requires
        c0.wf(),
        !has_tag_value(c0.tags, t.value),
        c0.next_tag_id < u32::MAX,
        t.id == c0.next_tag_id,
        c1.tags == c0.tags.push(t),
        c1.docs == c0.docs,
        c1.next_tag_id == c0.next_tag_id + 1,
        c1.next_doc_id == c0.next_doc_id,
    ensures
        c1.wf(),
{
    assert forall|i: int| 0 <= i < c1.tags.len() implies (#[trigger] c1.tags[i]).id
        < c1.next_tag_id by {
        if i < c0.tags.len() {
            assert(c1.tags[i] == c0.tags[i]);
        }
    }
    assert forall|i: int, j: int|
        0 <= i < j < c1.tags.len() implies (#[trigger] c1.tags[i]).id != (
    #[trigger] c1.tags[j]).id && c1.tags[i].value != c1.tags[j].value by {
        if j < c0.tags.len() {
            assert(c0.tags[i] == c1.tags[i]);
            assert(c0.tags[j] == c1.tags[j]);
        } else {
            assert(c1.tags[j] == t);
            assert(c0.tags[i] == c1.tags[i]);
            assert(c0.tags[i].id < c0.next_tag_id);
        }
    }
    assert forall|i: int, k: int|
        0 <= i < c1.docs.len() && 0 <= k < token_list(
            (#[trigger] c1.docs[i]).tags,
        ).len() implies has_tag_value(c1.tags, #[trigger] token_list(c1.docs[i].tags)[k]) by {
        assert(c0.docs[i] == c1.docs[i]);
        assert(has_tag_value(c0.tags, token_list(c0.docs[i].tags)[k]));
        let w = choose|w: int|
            0 <= w < c0.tags.len() && (#[trigger] c0.tags[w]).value == token_list(
                c0.docs[i].tags,
            )[k];
        assert(c1.tags[w].value == token_list(c1.docs[i].tags)[k]);
    }
}

/// Removing a tag row that no document references keeps the catalog well
/// formed.
proof fn lemma_tag_remove_wf(c0: CatalogView, c1: CatalogView, i: int, v: Seq<char>)
    requires
        c0.wf(),
        0 <= i < c0.tags.len(),
        c0.tags[i].value == v,
        !tag_referenced(c0.docs, v),
        c1.tags == c0.tags.remove(i),
        c1.docs == c0.docs,
        c1.next_tag_id == c0.next_tag_id,
        c1.next_doc_id == c0.next_doc_id,
    ensures
        c1.wf(),
        !has_tag_value(c1.tags, v),
{
    assert forall|a: int, b: int|
        0 <= a < b < c1.tags.len() implies (#[trigger] c1.tags[a]).id != (
    #[trigger] c1.tags[b]).id && c1.tags[a].value != c1.tags[b].value by {
        let a0 = if a < i {
            a
        } else {
            a + 1
        };
        let b0 = if b < i {
            b
        } else {
            b + 1
        };
        assert(c1.tags[a] == c0.tags[a0]);
        assert(c1.tags[b] == c0.tags[b0]);
    }
    assert forall|a: int| 0 <= a < c1.tags.len() implies (#[trigger] c1.tags[a]).value != v by {
        let a0 = if a < i {
            a
        } else {
            a + 1
        };
        assert(c1.tags[a] == c0.tags[a0]);
        assert(c0.tags[i].value == v);
        if a0 != i {
            assert(c0.tags[a0].value != c0.tags[i].value);
        }
    }
    assert forall|d: int, k: int|
        0 <= d < c1.docs.len() && 0 <= k < token_list(
            (#[trigger] c1.docs[d]).tags,
        ).len() implies has_tag_value(c1.tags, #[trigger] token_list(c1.docs[d].tags)[k]) by {
        let tok = token_list(c0.docs[d].tags)[k];
        assert(c0.docs[d] == c1.docs[d]);
        assert(has_tag_value(c0.tags, tok));
        let w = choose|w: int|
            0 <= w < c0.tags.len() && (#[trigger] c0.tags[w]).value == tok;
        assert(tok != v);
        assert(w != i);
        if w < i {
            assert(c1.tags[w].value == tok);
        } else {
            assert(c1.tags[w - 1].value == tok);
        }
    }
}

/// A tag as a caller supplies it: a value, with an id once stored.
#[derive(Debug)]
pub struct Tag {
    pub id: Option<u32>,
    pub value: String,
}

impl Tag {
    /// A new tag input with the value normalized to lowercase.
    pub fn new(value: &str) -> (r: Tag)
        ensures
            r.id == None::<u32>,
            r.value@ == lower_of(value@),
    {
        Tag { id: None, value: to_lower(value) }
    }

    /// The stored tag with id `id`, or `NotFound`.
    pub fn from_id(id: u32, cat: &Catalog) -> (r: Result<Tag, CatalogError>)
        ensures
            r is Err <==> !has_tag_id(cat@.tags, id),
            r matches Ok(t) ==> t.id == Some(id) && cat@.tags.contains(
                TagView { id: id, value: t.value@ },
            ),
            r matches Err(e) ==> e == CatalogError::NotFound,
    {
        match DatabaseTag::from_id(id, cat) {
            Some(dbt) => Ok(dbt.into_tag()),
            None => Err(CatalogError::NotFound),
        }
    }

    /// Inserts this tag's value if it is absent; a value already stored
    /// is left as it is.  The only failure is an exhausted id space.
    pub fn insert(self, cat: &mut Catalog) -> (r: Result<(), CatalogError>)
        requires
            old(cat)@.wf(),
        ensures
            final(cat)@.wf(),
            final(cat)@.docs == old(cat)@.docs,
            final(cat)@.next_doc_id == old(cat)@.next_doc_id,
            r is Err <==> !has_tag_value(old(cat)@.tags, self.value@) && old(cat)@.next_tag_id
                == u32::MAX,
            r matches Err(e) ==> e == CatalogError::IdExhausted && final(cat)@ == old(cat)@,
            r is Ok ==> if has_tag_value(old(cat)@.tags, self.value@) {
                final(cat)@ == old(cat)@
            } else {
                final(cat)@.tags == old(cat)@.tags.push(
                    TagView { id: old(cat)@.next_tag_id, value: self.value@ },
                ) && final(cat)@.next_tag_id == old(cat)@.next_tag_id + 1
            },
    {
        let ghost v = self.value@;
        match DatabaseTag::from_insert(self, cat) {
            Ok(_) => Ok(()),
            Err(e) => Err(e),
        }
    }

    /// Deletes this tag's value from the catalog, first scrubbing it from
    /// every document's tag string so no document is left referencing it.
    /// A value that is not stored leaves the tag table unchanged.
    pub fn delete(self, cat: &mut Catalog)
        requires
            old(cat)@.wf(),
        ensures
            final(cat)@.wf(),
            final(cat)@.docs == crate::document::scrub_docs(old(cat)@.docs, self.value@),
            final(cat)@.next_tag_id == old(cat)@.next_tag_id,
            final(cat)@.next_doc_id == old(cat)@.next_doc_id,
            !has_tag_value(final(cat)@.tags, self.value@),
            !tag_referenced(final(cat)@.docs, self.value@),
            forall|a: int|
                0 <= a < final(cat)@.docs.len() ==> token_list(
                    (#[trigger] final(cat)@.docs[a]).tags,
                ) == crate::text::neq_filter(token_list(old(cat)@.docs[a].tags), self.value@),
            if has_tag_value(old(cat)@.tags, self.value@) {
                exists|i: int|
                    0 <= i < old(cat)@.tags.len() && (#[trigger] old(cat)@.tags[i]).value
                        == self.value@ && final(cat)@.tags == old(cat)@.tags.remove(i)
            } else {
                final(cat)@.tags == old(cat)@.tags
            },
    {
        crate::document::DocList::delete_tag(&self.value, cat);
        match cat.find_tag_by_value(&self.value) {
            Some(i) => {
                let ghost c1 = cat@;
                cat.remove_tag_row_at(i);
                proof {
                    lemma_tag_remove_wf(c1, cat@, i as int, self.value@);
                }
            },
            None => (),
        }
    }
}

/// An ordered listing of tag rows.
#[derive(Debug)]
pub struct TagList(pub Vec<DatabaseTag>);

impl View for TagList {
    type V = Seq<TagView>;

    open spec fn view(&self) -> Seq<TagView> {
        self.0.deep_view()
    }
}

/// A comma-separated list of tag values as a caller typed it: split on
/// commas, empty pieces dropped, each piece trimmed and lowercased.
#[derive(Debug)]
pub struct TagInputList(Vec<String>);

impl View for TagInputList {
    type V = Seq<Seq<char>>;

    closed spec fn view(&self) -> Seq<Seq<char>> {
        self.0.deep_view()
    }
}

impl Default for TagInputList {
    fn default() -> (r: TagInputList)
        ensures
            r@ == Seq::<Seq<char>>::empty(),
    {
        let r = TagInputList(Vec::new());
        proof {
            assert(r@ =~~= Seq::<Seq<char>>::empty());
        }
        r
    }
}

/// The values a comma-separated input denotes: each non-empty piece,
/// trimmed and lowercased.
pub open spec fn input_values(s: Seq<char>) -> Seq<Seq<char>> {
    nonempty_filter(pieces(s)).map_values(|p: Seq<char>| lower_of(trimmed(p)))
}

impl TagInputList {
    /// Parses a comma-separated list of tag values.
    pub fn parse(value: &str) -> (r: TagInputList)
        ensures
            r@ == input_values(value@),
    {
        let ps = crate::text::split_pieces(value);
        let mut out: Vec<String> = Vec::new();
        let mut i: usize = 0;
        while i < ps.len()
            invariant
                0 <= i <= ps.len(),
                ps.deep_view() == pieces(value@),
                out.deep_view() =~~= nonempty_filter(pieces(value@).subrange(0, i as int))
                    .map_values(|p: Seq<char>| lower_of(trimmed(p))),
            decreases ps.len() - i,
        {
            let ghost pre = pieces(value@).subrange(0, i as int);
            let ghost rd = out.deep_view();
            proof {
                assert(pieces(value@).subrange(0, i + 1) =~= pre.push(pieces(value@)[i as int]));
                crate::text::lemma_nonempty_filter_push(pre, pieces(value@)[i as int]);
            }
            if !ps[i].as_str().is_empty() {
                let t = to_lower(trimmed_str(ps[i].as_str()));
                out.push(t);
                proof {
                    assert(out.deep_view() =~~= rd.push(
                        lower_of(trimmed(pieces(value@)[i as int])),
                    ));
                    assert(nonempty_filter(pre.push(pieces(value@)[i as int])).map_values(
                        |p: Seq<char>| lower_of(trimmed(p)),
                    ) =~~= out.deep_view());
                }
            } else {
                proof {
                    assert(nonempty_filter(pre.push(pieces(value@)[i as int])).map_values(
                        |p: Seq<char>| lower_of(trimmed(p)),
                    ) =~~= rd);
                }
            }
            i = i + 1;
        }
        proof {
            assert(pieces(value@).subrange(0, pieces(value@).len() as int) =~= pieces(value@));
        }
        TagInputList(out)
    }

    /// The parsed values as tag inputs; each value passes through the tag
    /// constructor, which lowercases once more.
    pub fn as_tags(self) -> (r: Vec<Tag>)
        ensures
            r.len() == self@.len(),
            forall|i: int|
                0 <= i < r.len() ==> (#[trigger] r[i]).id == None::<u32> && r[i].value@ == lower_of(
                    self@[i],
                ),
    {
        let mut out: Vec<Tag> = Vec::new();
        let mut i: usize = 0;
        while i < self.0.len()
            invariant
                0 <= i <= self.0.len(),
                out.len() == i,
                forall|j: int|
                    0 <= j < i ==> (#[trigger] out[j]).id == None::<u32> && out[j].value@
                        == lower_of(self.0.deep_view()[j]),
            decreases self.0.len() - i,
        {
            out.push(Tag::new(self.0[i].as_str()));
            i = i + 1;
        }
        out
    }

    /// The parsed values themselves.
    pub fn tag_values(&self) -> (r: &Vec<String>)
        ensures
            r.deep_view() == self@,
    {
        &self.0
    }

    /// Inserts each value in order, skipping values that are already
    /// stored: insertion is idempotent, a repeated value is not an
    /// error.  The only failure is an exhausted id space, which stops
    /// the run; the rows created before the stop remain.
    pub fn add_to_db(&self, cat: &mut Catalog) -> (r: Result<(), CatalogError>)
        requires
            old(cat)@.wf(),
        ensures
            final(cat)@.wf(),
            final(cat)@.docs == old(cat)@.docs,
            final(cat)@.next_doc_id == old(cat)@.next_doc_id,
            ({
                let f = add_values(old(cat)@.tags, old(cat)@.next_tag_id as int, self@);
                &&& final(cat)@.tags == f.0
                &&& final(cat)@.next_tag_id as int == f.1
                &&& match f.2 {
                    None => r is Ok,
                    Some(e) => r == Err::<(), CatalogError>(e),
                }
            }),
    {
        proof {
            assert(self@.skip(0) =~~= self@);
        }
        let mut i: usize = 0;
        while i < self.0.len()
            invariant
                0 <= i <= self.0.len(),
                cat@.wf(),
                cat@.docs == old(cat)@.docs,
                cat@.next_doc_id == old(cat)@.next_doc_id,
                add_values(old(cat)@.tags, old(cat)@.next_tag_id as int, self@) == add_values(
                    cat@.tags,
                    cat@.next_tag_id as int,
                    self@.skip(i as int),
                ),
            decreases self.0.len() - i,
        {
            let ghost rest = self@.skip(i as int);
            proof {
                assert(rest[0] == self@[i as int]);
                assert(rest.drop_first() =~~= self@.skip(i + 1));
            }
            let v = self.0[i].clone();
            match cat.find_tag_by_value(&v) {
                Some(w) => {
                    proof {
                        assert(cat@.tags[w as int].value == v@);
                    }
                },
                None => {
                    if cat.tag_ids_left() == 0 {
                        return Err(CatalogError::IdExhausted);
                    }
                    let ghost cpre = cat@;
                    let t = cat.insert_tag_row(v);
                    proof {
                        lemma_tag_push_wf(cpre, cat@, t@);
                    }
                },
            }
            i = i + 1;
        }
        proof {
            assert(self@.skip(self@.len() as int) =~~= Seq::<Seq<char>>::empty());
        }
        Ok(())
    }

    /// Deletes each value in order, scrubbing it from every document's
    /// tag string first and then dropping its tag row, so that afterwards
    /// none of the listed values is stored or referenced; unlisted rows
    /// and tokens survive.
    pub fn delete_from_db(&self, cat: &mut Catalog)
        requires
            old(cat)@.wf(),
        ensures
            final(cat)@.wf(),
            final(cat)@.next_tag_id == old(cat)@.next_tag_id,
            final(cat)@.next_doc_id == old(cat)@.next_doc_id,
            final(cat)@.tags == delete_values(old(cat)@.tags, old(cat)@.docs, self@).0,
            final(cat)@.docs == delete_values(old(cat)@.tags, old(cat)@.docs, self@).1,
            forall|j: int|
                0 <= j < self@.len() ==> !has_tag_value(final(cat)@.tags, #[trigger] self@[j])
                    && !tag_referenced(final(cat)@.docs, self@[j]),
    {
        proof {
            assert(self@.skip(0) =~~= self@);
        }
        let mut i: usize = 0;
        while i < self.0.len()
            invariant
                0 <= i <= self.0.len(),
                cat@.wf(),
                cat@.next_tag_id == old(cat)@.next_tag_id,
                cat@.next_doc_id == old(cat)@.next_doc_id,
                delete_values(old(cat)@.tags, old(cat)@.docs, self@) == delete_values(
                    cat@.tags,
                    cat@.docs,
                    self@.skip(i as int),
                ),
                forall|j: int|
                    0 <= j < i ==> !has_tag_value(cat@.tags, #[trigger] self@[j])
                        && !tag_referenced(cat@.docs, self@[j]),
            decreases self.0.len() - i,
        {
            let ghost rest = self@.skip(i as int);
            proof {
                assert(rest[0] == self@[i as int]);
                assert(rest.drop_first() =~~= self@.skip(i + 1));
            }
            let ghost cpre = cat@;
            let t = Tag { id: None, value: self.0[i].clone() };
            proof {
                assert(t.value@ == self@[i as int]);
            }
            t.delete(cat);
            proof {
                let v = self@[i as int];
                assert(cat@.docs.len() == cpre.docs.len());
                if has_tag_value(cpre.tags, v) {
                    let w = choose|w: int|
                        0 <= w < cpre.tags.len() && (#[trigger] cpre.tags[w]).value == v
                            && cat@.tags == cpre.tags.remove(w);
                    assert(cat@.tags == cpre.tags.remove(w));
                    assert forall|j: int|
                        0 <= j < cpre.tags.len() && j != w implies (#[trigger] cpre.tags[j]).value
                        != v by {
                        assert(cpre.tags[w].value == v);
                    }
                    lemma_without_unique(cpre.tags, v, w);
                } else {
                    assert forall|a: int| 0 <= a < cpre.tags.len() implies (
                    #[trigger] cpre.tags[a]).value != v by {
                        if cpre.tags[a].value == v {
                            assert(has_tag_value(cpre.tags, v));
                        }
                    }
                    lemma_without_absent(cpre.tags, v);
                }
                assert(delete_values(cpre.tags, cpre.docs, rest) == delete_values(
                    cat@.tags,
                    cat@.docs,
                    self@.skip(i + 1),
                ));
                lemma_absences_kept(cpre, cat@, v);
                assert(!has_tag_value(cat@.tags, v));
            }
            i = i + 1;
        }
        proof {
            assert(self@.skip(self@.len() as int) =~~= Seq::<Seq<char>>::empty());
        }
    }
}

/// Values that were neither stored nor referenced stay so across one
/// tag deletion.
proof fn lemma_absences_kept(c0: CatalogView, c1: CatalogView, v: Seq<char>)
    requires
        c1.docs.len() == c0.docs.len(),
        forall|a: int|
            0 <= a < c1.docs.len() ==> token_list((#[trigger] c1.docs[a]).tags)
                == crate::text::neq_filter(token_list(c0.docs[a].tags), v),
        c1.tags == c0.tags || exists|w: int|
            0 <= w < c0.tags.len() && c1.tags == #[trigger] c0.tags.remove(w),
    ensures
        forall|u: Seq<char>|
            !has_tag_value(c0.tags, u) ==> !#[trigger] has_tag_value(c1.tags, u),
        forall|u: Seq<char>|
            !tag_referenced(c0.docs, u) ==> !#[trigger] tag_referenced(c1.docs, u),
{
    assert forall|u: Seq<char>| !has_tag_value(c0.tags, u) implies !#[trigger] has_tag_value(
        c1.tags,
        u,
    ) by {
        if has_tag_value(c1.tags, u) {
            let a = choose|a: int| 0 <= a < c1.tags.len() && (#[trigger] c1.tags[a]).value == u;
            if c1.tags == c0.tags {
                assert(c0.tags[a].value == u);
            } else {
                let w = choose|w: int|
                    0 <= w < c0.tags.len() && c1.tags == #[trigger] c0.tags.remove(w);
                if a < w {
                    assert(c0.tags[a].value == u);
                } else {
                    assert(c0.tags[a + 1].value == u);
                }
            }
        }
    }
    assert forall|u: Seq<char>| !tag_referenced(c0.docs, u) implies !#[trigger] tag_referenced(
        c1.docs,
        u,
    ) by {
        if tag_referenced(c1.docs, u) {
            let (a, k): (int, int) = choose|a: int, k: int|
                0 <= a < c1.docs.len() && 0 <= k < token_list((#[trigger] c1.docs[a]).tags).len()
                    && #[trigger] token_list(c1.docs[a].tags)[k] == u;
            let ot = token_list(c0.docs[a].tags);
            crate::text::lemma_neq_filter_elems(ot, v);
            assert(ot.contains(u));
            let w = choose|w: int| 0 <= w < ot.len() && ot[w] == u;
            assert(token_list(c0.docs[a].tags)[w] == u);
        }
    }
}

/// The tag rows other than those carrying the value `v`, in order.
pub open spec fn tag_rows_without(tags: Seq<TagView>, v: Seq<char>) -> Seq<TagView> {
    tags.filter(|t: TagView| t.value != v)
}

proof fn lemma_without_push(tags: Seq<TagView>, x: TagView, v: Seq<char>)
    ensures
        tag_rows_without(tags.push(x), v) == if x.value != v {
            tag_rows_without(tags, v).push(x)
        } else {
            tag_rows_without(tags, v)
        },
{
    reveal(Seq::filter);
    assert((tags.push(x)).drop_last() =~= tags);
}

/// Filtering a value that no row carries changes nothing.
proof fn lemma_without_absent(tags: Seq<TagView>, v: Seq<char>)
    requires
        forall|a: int| 0 <= a < tags.len() ==> (#[trigger] tags[a]).value != v,
    ensures
        tag_rows_without(tags, v) == tags,
    decreases tags.len(),
{
    if tags.len() == 0 {
        reveal(Seq::filter);
    } else {
        let pre = tags.drop_last();
        lemma_without_absent(pre, v);
        assert(pre.push(tags.last()) =~~= tags);
        lemma_without_push(pre, tags.last(), v);
        assert(tags[tags.len() - 1].value != v);
    }
}

/// When exactly one row carries the value, filtering removes that row.
proof fn lemma_without_unique(tags: Seq<TagView>, v: Seq<char>, w: int)
    requires
        0 <= w < tags.len(),
        tags[w].value == v,
        forall|j: int| 0 <= j < tags.len() && j != w ==> (#[trigger] tags[j]).value != v,
    ensures
        tag_rows_without(tags, v) == tags.remove(w),
    decreases tags.len(),
{
    let pre = tags.drop_last();
    let x = tags.last();
    assert(pre.push(x) =~~= tags);
    lemma_without_push(pre, x, v);
    if w == tags.len() - 1 {
        assert(x.value == v);
        assert forall|a: int| 0 <= a < pre.len() implies (#[trigger] pre[a]).value != v by {
            assert(tags[a].value != v);
        }
        lemma_without_absent(pre, v);
        assert(tags.remove(w) =~~= pre);
    } else {
        assert(x.value != v) by {
            assert(tags[tags.len() - 1].value != v);
        }
        assert forall|j: int| 0 <= j < pre.len() && j != w implies (#[trigger] pre[j]).value
            != v by {
            assert(tags[j].value != v);
        }
        lemma_without_unique(pre, v, w);
        assert(pre.remove(w).push(x) =~~= tags.remove(w));
    }
}

/// The two tables after deleting a list of values one by one: for each
/// value, every document's tag string is scrubbed of it and its tag row
/// is dropped.
pub open spec fn delete_values(tags: Seq<TagView>, docs: Seq<DocView>, vs: Seq<Seq<char>>) -> (
    Seq<TagView>,
    Seq<DocView>,
)
    decreases vs.len(),
{
    if vs.len() == 0 {
        (tags, docs)
    } else {
        delete_values(tag_rows_without(tags, vs[0]), scrub_docs(docs, vs[0]), vs.drop_first())
    }
}

/// The tag table and fresh-id counter after inserting a list of values
/// one by one, skipping values already present, with the failure, if
/// any, that stops the run: an exhausted id space stops with
/// `IdExhausted`.
pub open spec fn add_values(tg: Seq<TagView>, nx: int, vs: Seq<Seq<char>>) -> (
    Seq<TagView>,
    int,
    Option<CatalogError>,
)
    decreases vs.len(),
{
    if vs.len() == 0 {
        (tg, nx, None)
    } else if has_tag_value(tg, vs[0]) {
        add_values(tg, nx, vs.drop_first())
    } else if nx == u32::MAX as int {
        (tg, nx, Some(CatalogError::IdExhausted))
    } else {
        add_values(tg.push(TagView { id: nx as u32, value: vs[0] }), nx + 1, vs.drop_first())
    }
}

} // verus!
