//! The catalog: the tag table and the document table, with the invariant
//! that ties them together.  Every tag value appearing as a token in some
//! document's denormalized tag string has a row in the tag table, ids and
//! tag values and titles are unique, and every stored tag string is in
//! canonical comma-joined form.

use crate::document::DatabaseDoc;
use crate::error::CatalogError;
use crate::document::DocView;
use crate::tag::DatabaseTag;
use crate::tag::TagView;
use crate::text::canonical_tags;
use crate::text::token_list;
use vstd::prelude::*;

verus! {

/// Whether some row in `tags` carries the value `v`.
pub open spec fn has_tag_value(tags: Seq<TagView>, v: Seq<char>) -> bool {
    exists|i: int| 0 <= i < tags.len() && (#[trigger] tags[i]).value == v
}

/// Whether some row in `tags` carries the id `id`.
pub open spec fn has_tag_id(tags: Seq<TagView>, id: u32) -> bool {
    exists|i: int| 0 <= i < tags.len() && (#[trigger] tags[i]).id == id
}

/// Whether some row in `docs` carries the id `id`.
pub open spec fn has_doc_id(docs: Seq<DocView>, id: u32) -> bool {
    exists|i: int| 0 <= i < docs.len() && (#[trigger] docs[i]).id == id
}

/// Whether some row in `docs` carries the title `t`.
pub open spec fn has_doc_title(docs: Seq<DocView>, t: Seq<char>) -> bool {
    exists|i: int| 0 <= i < docs.len() && (#[trigger] docs[i]).title == t
}

/// Whether some document in `docs` references the tag value `v` as a token
/// of its denormalized tag string.
pub open spec fn tag_referenced(docs: Seq<DocView>, v: Seq<char>) -> bool {
    exists|i: int, k: int|
        0 <= i < docs.len() && 0 <= k < token_list((#[trigger] docs[i]).tags).len()
            && #[trigger] token_list(docs[i].tags)[k] == v
}

/// One step of auto-creating referenced tags: a value already present
/// changes nothing, an unseen value gets the next id.
pub open spec fn tag_step(tg: Seq<TagView>, nx: int, tok: Seq<char>) -> (Seq<TagView>, int) {
    if has_tag_value(tg, tok) {
        (tg, nx)
    } else {
        (tg.push(TagView { id: nx as u32, value: tok }), nx + 1)
    }
}

/// Auto-creates every value of `toks` that is missing from the tag table,
/// in order, assigning fresh ids from `nx` on.
pub open spec fn add_missing_tags(tg: Seq<TagView>, nx: int, toks: Seq<Seq<char>>) -> (
    Seq<TagView>,
    int,
)
    decreases toks.len(),
{
    if toks.len() == 0 {
        (tg, nx)
    } else {
        let s = tag_step(tg, nx, toks[0]);
        add_missing_tags(s.0, s.1, toks.drop_first())
    }
}

pub proof fn lemma_add_missing_snoc(tg: Seq<TagView>, nx: int, toks: Seq<Seq<char>>, x: Seq<char>)
    ensures
        add_missing_tags(tg, nx, toks.push(x)) == ({
            let f = add_missing_tags(tg, nx, toks);
            tag_step(f.0, f.1, x)
        }),
    decreases toks.len(),
{
    if toks.len() == 0 {
        let s = tag_step(tg, nx, x);
        assert(toks.push(x)[0] == x);
        assert(toks.push(x).drop_first() =~~= Seq::<Seq<char>>::empty());
        assert(add_missing_tags(tg, nx, toks.push(x)) == add_missing_tags(
            s.0,
            s.1,
            Seq::<Seq<char>>::empty(),
        ));
        assert(add_missing_tags(tg, nx, toks) == (tg, nx));
    } else {
        let s = tag_step(tg, nx, toks[0]);
        assert(toks.push(x)[0] == toks[0]);
        assert(toks.push(x).drop_first() =~~= toks.drop_first().push(x));
        assert(add_missing_tags(tg, nx, toks.push(x)) == add_missing_tags(
            s.0,
            s.1,
            toks.drop_first().push(x),
        ));
        lemma_add_missing_snoc(s.0, s.1, toks.drop_first(), x);
        assert(add_missing_tags(tg, nx, toks) == add_missing_tags(s.0, s.1, toks.drop_first()));
    }
}

/// The fold only appends: the starting rows stay in place.
pub proof fn lemma_add_missing_prefix(tg: Seq<TagView>, nx: int, toks: Seq<Seq<char>>)
    ensures
        tg.is_prefix_of(add_missing_tags(tg, nx, toks).0),
    decreases toks.len(),
{
    if toks.len() == 0 {
        assert(tg =~~= add_missing_tags(tg, nx, toks).0.take(tg.len() as int));
    } else {
        let s = tag_step(tg, nx, toks[0]);
        lemma_add_missing_prefix(s.0, s.1, toks.drop_first());
        let f = add_missing_tags(tg, nx, toks).0;
        assert(f == add_missing_tags(s.0, s.1, toks.drop_first()).0);
        assert(forall|i: int| 0 <= i < s.0.len() ==> #[trigger] f[i] == s.0[i]);
        assert(tg =~~= f.take(tg.len() as int));
    }
}

pub proof fn lemma_add_missing_bound(tg: Seq<TagView>, nx: int, toks: Seq<Seq<char>>)
    ensures
        nx <= add_missing_tags(tg, nx, toks).1 <= nx + toks.len(),
    decreases toks.len(),
{
    if toks.len() > 0 {
        let s = tag_step(tg, nx, toks[0]);
        lemma_add_missing_bound(s.0, s.1, toks.drop_first());
    }
}

/// The mathematical value of the whole catalog.
pub ghost struct CatalogView {
    pub tags: Seq<TagView>,
    pub docs: Seq<DocView>,
    pub next_tag_id: u32,
    pub next_doc_id: u32,
}

impl CatalogView {
    /// Tag rows are well formed: ids below the fresh-id counter, ids and
    /// values unique.
    pub open spec fn tags_wf(self) -> bool {
        &&& forall|i: int|
            0 <= i < self.tags.len() ==> (#[trigger] self.tags[i]).id < self.next_tag_id
        &&& forall|i: int, j: int|
            #![trigger self.tags[i], self.tags[j]]
            0 <= i < j < self.tags.len() ==> self.tags[i].id != self.tags[j].id
                && self.tags[i].value != self.tags[j].value
    }

    /// Document rows are well formed: ids below the fresh-id counter, ids
    /// and titles unique, and each tag string canonical.
    pub open spec fn docs_wf(self) -> bool {
        &&& forall|i: int|
            0 <= i < self.docs.len() ==> (#[trigger] self.docs[i]).id < self.next_doc_id
                && canonical_tags(self.docs[i].tags)
        &&& forall|i: int, j: int|
            #![trigger self.docs[i], self.docs[j]]
            0 <= i < j < self.docs.len() ==> self.docs[i].id != self.docs[j].id
                && self.docs[i].title != self.docs[j].title
    }

    /// Every tag value referenced by a document exists in the tag table.
    pub open spec fn consistent(self) -> bool {
        forall|i: int, k: int|
            0 <= i < self.docs.len() && 0 <= k < token_list(
                (#[trigger] self.docs[i]).tags,
            ).len() ==> has_tag_value(self.tags, #[trigger] token_list(self.docs[i].tags)[k])
    }

    /// The catalog invariant.
    pub open spec fn wf(self) -> bool {
        self.tags_wf() && self.docs_wf() && self.consistent()
    }
}

/// Whether stored rows form a valid catalog: ids below the largest
/// representable value, ids and tag values and titles unique, every tag
/// string canonical, and every referenced tag value stored.
pub open spec fn restorable(tags: Seq<TagView>, docs: Seq<DocView>) -> bool {
    &&& forall|i: int| 0 <= i < tags.len() ==> (#[trigger] tags[i]).id < u32::MAX
    &&& forall|i: int, j: int|
        #![trigger tags[i], tags[j]]
        0 <= i < j < tags.len() ==> tags[i].id != tags[j].id && tags[i].value != tags[j].value
    &&& forall|i: int|
        0 <= i < docs.len() ==> (#[trigger] docs[i]).id < u32::MAX && canonical_tags(docs[i].tags)
    &&& forall|i: int, j: int|
        #![trigger docs[i], docs[j]]
        0 <= i < j < docs.len() ==> docs[i].id != docs[j].id && docs[i].title != docs[j].title
    &&& forall|i: int, k: int|
        0 <= i < docs.len() && 0 <= k < token_list((#[trigger] docs[i]).tags).len()
            ==> has_tag_value(tags, #[trigger] token_list(docs[i].tags)[k])
}

/// The in-memory catalog: the two tables and their fresh-id counters.
#[derive(Debug)]
pub struct Catalog {
    tags: Vec<DatabaseTag>,
    docs: Vec<DatabaseDoc>,
    next_tag_id: u32,
    next_doc_id: u32,
}

impl View for Catalog {
    type V = CatalogView;

    closed spec fn view(&self) -> CatalogView {
        CatalogView {
            tags: self.tags.deep_view(),
            docs: self.docs.deep_view(),
            next_tag_id: self.next_tag_id,
            next_doc_id: self.next_doc_id,
        }
    }
}

impl Catalog {
    /// An empty catalog.
    pub fn new() -> (r: Catalog)
        ensures
            r@.tags == Seq::<TagView>::empty(),
            r@.docs == Seq::<DocView>::empty(),
            r@.next_tag_id == 1u32,
            r@.next_doc_id == 1u32,
            r@.wf(),
    {
        let r = Catalog { tags: Vec::new(), docs: Vec::new(), next_tag_id: 1, next_doc_id: 1 };
        proof {
            assert(r@.tags =~~= Seq::<TagView>::empty());
            assert(r@.docs =~~= Seq::<DocView>::empty());
        }
        r
    }

    /// Builds a catalog from stored rows, validating them: ids, tag
    /// values and titles must be unique, every tag string canonical, and
    /// every referenced tag value stored.  Fresh-id counters resume above
    /// the largest stored ids.
    pub fn restore(tag_rows: Vec<DatabaseTag>, doc_rows: Vec<DatabaseDoc>) -> (r: Result<
        Catalog,
        CatalogError,
    >)
        ensures
            r is Ok <==> restorable(tag_rows.deep_view(), doc_rows.deep_view()),
            r matches Ok(c) ==> c@.wf() && c@.tags == tag_rows.deep_view() && c@.docs
                == doc_rows.deep_view(),
            r matches Err(e) ==> e == CatalogError::InvalidValue,
    {
        let ghost tv = tag_rows.deep_view();
        let ghost dv = doc_rows.deep_view();
        let mut next_tag: u32 = 1;
        let mut i: usize = 0;
        while i < tag_rows.len()
            invariant
                0 <= i <= tag_rows.len(),
                tag_rows.deep_view() == tv,
                1 <= next_tag,
                forall|a: int| 0 <= a < i ==> (#[trigger] tv[a]).id < next_tag,
                forall|a: int, b: int|
                    #![trigger tv[a], tv[b]]
                    0 <= a < b < i ==> tv[a].id != tv[b].id && tv[a].value != tv[b].value,
            decreases tag_rows.len() - i,
        {
            if tag_rows[i].id == u32::MAX {
                proof {
                    assert(tv[i as int].id == u32::MAX);
                }
                return Err(CatalogError::InvalidValue);
            }
            let mut j: usize = 0;
            while j < i
                invariant
                    0 <= j <= i < tag_rows.len(),
                    tag_rows.deep_view() == tv,
                    forall|a: int|
                        0 <= a < j ==> (#[trigger] tv[a]).id != tv[i as int].id && tv[a].value
                            != tv[i as int].value,
                decreases i - j,
            {
                if tag_rows[j].id == tag_rows[i].id || tag_rows[j].value == tag_rows[i].value {
                    proof {
                        assert(tv[j as int].id == tv[i as int].id || tv[j as int].value
                            == tv[i as int].value);
                    }
                    return Err(CatalogError::InvalidValue);
                }
                j = j + 1;
            }
            if tag_rows[i].id >= next_tag {
                next_tag = tag_rows[i].id + 1;
            }
            i = i + 1;
        }
        let mut next_doc: u32 = 1;
        let mut i: usize = 0;
        while i < doc_rows.len()
            invariant
                0 <= i <= doc_rows.len(),
                doc_rows.deep_view() == dv,
                tag_rows.deep_view() == tv,
                1 <= next_doc,
                forall|a: int|
                    0 <= a < i ==> (#[trigger] dv[a]).id < next_doc && canonical_tags(dv[a].tags),
                forall|a: int, b: int|
                    #![trigger dv[a], dv[b]]
                    0 <= a < b < i ==> dv[a].id != dv[b].id && dv[a].title != dv[b].title,
                forall|a: int, k: int|
                    0 <= a < i && 0 <= k < token_list((#[trigger] dv[a]).tags).len()
                        ==> has_tag_value(tv, #[trigger] token_list(dv[a].tags)[k]),
            decreases doc_rows.len() - i,
        {
            if doc_rows[i].id == u32::MAX {
                proof {
                    assert(dv[i as int].id == u32::MAX);
                }
                return Err(CatalogError::InvalidValue);
            }
            let mut j: usize = 0;
            while j < i
                invariant
                    0 <= j <= i < doc_rows.len(),
                    doc_rows.deep_view() == dv,
                    forall|a: int|
                        0 <= a < j ==> (#[trigger] dv[a]).id != dv[i as int].id && dv[a].title
                            != dv[i as int].title,
                decreases i - j,
            {
                if doc_rows[j].id == doc_rows[i].id || doc_rows[j].title == doc_rows[i].title {
                    proof {
                        assert(dv[j as int].id == dv[i as int].id || dv[j as int].title
                            == dv[i as int].title);
                    }
                    return Err(CatalogError::InvalidValue);
                }
                j = j + 1;
            }
            let toks = crate::text::tokens_of(doc_rows[i].tags.as_str());
            let joined = crate::text::join_strings(&toks);
            if !(joined == doc_rows[i].tags) {
                proof {
                    assert(!canonical_tags(dv[i as int].tags));
                }
                return Err(CatalogError::InvalidValue);
            }
            let mut k: usize = 0;
            while k < toks.len()
                invariant
                    0 <= k <= toks.len(),
                    i < doc_rows.len(),
                    doc_rows.deep_view() == dv,
                    tag_rows.deep_view() == tv,
                    toks.deep_view() == token_list(dv[i as int].tags),
                    forall|kk: int|
                        0 <= kk < k ==> has_tag_value(
                            tv,
                            #[trigger] token_list(dv[i as int].tags)[kk],
                        ),
                decreases toks.len() - k,
            {
                let mut w: usize = 0;
                let mut found: bool = false;
                while w < tag_rows.len() && !found
                    invariant
                        0 <= w <= tag_rows.len(),
                        k < toks.len(),
                        tag_rows.deep_view() == tv,
                        toks.deep_view() == token_list(dv[i as int].tags),
                        found ==> has_tag_value(tv, token_list(dv[i as int].tags)[k as int]),
                        !found ==> forall|a: int|
                            0 <= a < w ==> (#[trigger] tv[a]).value != token_list(
                                dv[i as int].tags,
                            )[k as int],
                    decreases tag_rows.len() - w + (if found { 0int } else { 1int }),
                {
                    if tag_rows[w].value == toks[k] {
                        found = true;
                        proof {
                            assert(tv[w as int].value == token_list(dv[i as int].tags)[k as int]);
                        }
                    } else {
                        w = w + 1;
                    }
                }
                if !found {
                    proof {
                        assert(!has_tag_value(tv, token_list(dv[i as int].tags)[k as int]));
                    }
                    return Err(CatalogError::InvalidValue);
                }
                k = k + 1;
            }
            if doc_rows[i].id >= next_doc {
                next_doc = doc_rows[i].id + 1;
            }
            i = i + 1;
        }
        let c = Catalog { tags: tag_rows, docs: doc_rows, next_tag_id: next_tag, next_doc_id: next_doc };
        proof {
            assert(c@.tags == tv && c@.docs == dv);
            assert(c@.wf());
            assert(restorable(tv, dv));
        }
        Ok(c)
    }

    /// The fresh-id headroom of the tag table.
    pub fn tag_ids_left(&self) -> (r: u32)
        ensures
            r == u32::MAX - self@.next_tag_id,
    {
        u32::MAX - self.next_tag_id
    }

    /// The fresh-id headroom of the document table.
    pub fn doc_ids_left(&self) -> (r: u32)
        ensures
            r == u32::MAX - self@.next_doc_id,
    {
        u32::MAX - self.next_doc_id
    }

    /// The number of stored tag rows.
    pub fn tag_count(&self) -> (r: usize)
        ensures
            r == self@.tags.len(),
    {
        self.tags.len()
    }

    /// The number of stored document rows.
    pub fn doc_count(&self) -> (r: usize)
        ensures
            r == self@.docs.len(),
    {
        self.docs.len()
    }

    pub(crate) fn peek_next_doc_id(&self) -> (r: u32)
        ensures
            r == self@.next_doc_id,
    {
        self.next_doc_id
    }

    /// The index of the tag row with value `v`, if any.
    pub(crate) fn find_tag_by_value(&self, v: &String) -> (r: Option<usize>)
        ensures
            match r {
                Some(i) => i < self@.tags.len() && self@.tags[i as int].value == v@,
                None => !has_tag_value(self@.tags, v@),
            },
    {
        let mut i: usize = 0;
        while i < self.tags.len()
            invariant
                0 <= i <= self.tags.len(),
                forall|j: int| 0 <= j < i ==> (#[trigger] self@.tags[j]).value != v@,
            decreases self.tags.len() - i,
        {
            if self.tags[i].value == *v {
                return Some(i);
            }
            i = i + 1;
        }
        None
    }

    /// The index of the tag row with id `id`, if any.
    pub(crate) fn find_tag_by_id(&self, id: u32) -> (r: Option<usize>)
        ensures
            match r {
                Some(i) => i < self@.tags.len() && self@.tags[i as int].id == id,
                None => !has_tag_id(self@.tags, id),
            },
    {
        let mut i: usize = 0;
        while i < self.tags.len()
            invariant
                0 <= i <= self.tags.len(),
                forall|j: int| 0 <= j < i ==> (#[trigger] self@.tags[j]).id != id,
            decreases self.tags.len() - i,
        {
            if self.tags[i].id == id {
                return Some(i);
            }
            i = i + 1;
        }
        None
    }

    /// The index of the document row with id `id`, if any.
    pub(crate) fn find_doc_by_id(&self, id: u32) -> (r: Option<usize>)
        ensures
            match r {
                Some(i) => i < self@.docs.len() && self@.docs[i as int].id == id,
                None => !has_doc_id(self@.docs, id),
            },
    {
        let mut i: usize = 0;
        while i < self.docs.len()
            invariant
                0 <= i <= self.docs.len(),
                forall|j: int| 0 <= j < i ==> (#[trigger] self@.docs[j]).id != id,
            decreases self.docs.len() - i,
        {
            if self.docs[i].id == id {
                return Some(i);
            }
            i = i + 1;
        }
        None
    }

    /// The index of the document row with title `t`, if any.
    pub(crate) fn find_doc_by_title(&self, t: &String) -> (r: Option<usize>)
        ensures
            match r {
                Some(i) => i < self@.docs.len() && self@.docs[i as int].title == t@,
                None => !has_doc_title(self@.docs, t@),
            },
    {
        let mut i: usize = 0;
        while i < self.docs.len()
            invariant
                0 <= i <= self.docs.len(),
                forall|j: int| 0 <= j < i ==> (#[trigger] self@.docs[j]).title != t@,
            decreases self.docs.len() - i,
        {
            if self.docs[i].title == *t {
                return Some(i);
            }
            i = i + 1;
        }
        None
    }

    pub(crate) fn tag_row(&self, i: usize) -> (r: &DatabaseTag)
        requires
            i < self@.tags.len(),
        ensures
            r@ == self@.tags[i as int],
    {
        &self.tags[i]
    }

    pub(crate) fn doc_row(&self, i: usize) -> (r: &DatabaseDoc)
        requires
            i < self@.docs.len(),
        ensures
            r@ == self@.docs[i as int],
    {
        &self.docs[i]
    }

    /// Appends a fresh tag row carrying the next free id.
    pub(crate) fn insert_tag_row(&mut self, value: String) -> (r: DatabaseTag)
        requires
            old(self)@.next_tag_id < u32::MAX,
        ensures
            r@ == (TagView { id: old(self)@.next_tag_id, value: value@ }),
            final(self)@.tags == old(self)@.tags.push(r@),
            final(self)@.docs == old(self)@.docs,
            final(self)@.next_tag_id == old(self)@.next_tag_id + 1,
            final(self)@.next_doc_id == old(self)@.next_doc_id,
    {
        let ghost t0 = self@.tags;
        let id = self.next_tag_id;
        self.next_tag_id = id + 1;
        let row = DatabaseTag { id, value };
        let out = row.duplicate();
        self.tags.push(row);
        proof {
            assert(self@.tags =~~= t0.push(out@));
        }
        out
    }

    /// Removes the tag row at index `i`.
    pub(crate) fn remove_tag_row_at(&mut self, i: usize)
        requires
            i < old(self)@.tags.len(),
        ensures
            final(self)@.tags == old(self)@.tags.remove(i as int),
            final(self)@.docs == old(self)@.docs,
            final(self)@.next_tag_id == old(self)@.next_tag_id,
            final(self)@.next_doc_id == old(self)@.next_doc_id,
    {
        let ghost t0 = self@.tags;
        let _ = self.tags.remove(i);
        proof {
            assert(self@.tags =~~= t0.remove(i as int));
        }
    }

    /// Replaces the value of the tag row at index `i`, keeping its id.
    pub(crate) fn set_tag_value(&mut self, i: usize, v: String)
        requires
            i < old(self)@.tags.len(),
        ensures
            final(self)@.tags == old(self)@.tags.update(
                i as int,
                TagView { id: old(self)@.tags[i as int].id, value: v@ },
            ),
            final(self)@.docs == old(self)@.docs,
            final(self)@.next_tag_id == old(self)@.next_tag_id,
            final(self)@.next_doc_id == old(self)@.next_doc_id,
    {
        let ghost t0 = self@.tags;
        let id = self.tags[i].id;
        let row = DatabaseTag { id, value: v };
        let ghost rv = row@;
        self.tags[i] = row;
        proof {
            assert(self@.tags =~~= t0.update(i as int, rv));
        }
    }

    /// Appends a document row carrying the next free id.
    pub(crate) fn append_doc_row(&mut self, d: DatabaseDoc)
        requires
            old(self)@.next_doc_id < u32::MAX,
            d@.id == old(self)@.next_doc_id,
        ensures
            final(self)@.docs == old(self)@.docs.push(d@),
            final(self)@.tags == old(self)@.tags,
            final(self)@.next_doc_id == old(self)@.next_doc_id + 1,
            final(self)@.next_tag_id == old(self)@.next_tag_id,
    {
        let ghost d0 = self@.docs;
        let ghost dv = d@;
        self.next_doc_id = self.next_doc_id + 1;
        self.docs.push(d);
        proof {
            assert(self@.docs =~~= d0.push(dv));
        }
    }

    /// Removes the document row at index `i`.
    pub(crate) fn remove_doc_row_at(&mut self, i: usize)
        requires
            i < old(self)@.docs.len(),
        ensures
            final(self)@.docs == old(self)@.docs.remove(i as int),
            final(self)@.tags == old(self)@.tags,
            final(self)@.next_tag_id == old(self)@.next_tag_id,
            final(self)@.next_doc_id == old(self)@.next_doc_id,
    {
        let ghost d0 = self@.docs;
        let _ = self.docs.remove(i);
        proof {
            assert(self@.docs =~~= d0.remove(i as int));
        }
    }

    /// Replaces the document row at index `i`.
    pub(crate) fn set_doc_row(&mut self, i: usize, d: DatabaseDoc)
        requires
            i < old(self)@.docs.len(),
        ensures
            final(self)@.docs == old(self)@.docs.update(i as int, d@),
            final(self)@.tags == old(self)@.tags,
            final(self)@.next_tag_id == old(self)@.next_tag_id,
            final(self)@.next_doc_id == old(self)@.next_doc_id,
    {
        let ghost d0 = self@.docs;
        let ghost dv = d@;
        self.docs[i] = d;
        proof {
            assert(self@.docs =~~= d0.update(i as int, dv));
        }
    }

    /// Whether some document still references the tag value `v`.
    pub fn tag_in_use(&self, v: &String) -> (r: bool)
        ensures
            r == tag_referenced(self@.docs, v@),
    {
        let mut i: usize = 0;
        while i < self.docs.len()
            invariant
                0 <= i <= self.docs.len(),
                forall|j: int, k: int|
                    0 <= j < i && 0 <= k < token_list((#[trigger] self@.docs[j]).tags).len()
                        ==> #[trigger] token_list(self@.docs[j].tags)[k] != v@,
            decreases self.docs.len() - i,
        {
            let toks = crate::text::tokens_of(self.docs[i].tags.as_str());
            let mut k: usize = 0;
            while k < toks.len()
                invariant
                    0 <= k <= toks.len(),
                    i < self.docs.len(),
                    toks.deep_view() == token_list(self@.docs[i as int].tags),
                    forall|kk: int|
                        0 <= kk < k ==> token_list(self@.docs[i as int].tags)[kk] != v@,
                decreases toks.len() - k,
            {
                if toks[k] == *v {
                    proof {
                        assert(token_list((self@.docs[i as int]).tags)[k as int] == v@);
                    }
                    return true;
                }
                k = k + 1;
            }
            i = i + 1;
        }
        false
    }
}

/// All tag rows, in storage order.
pub fn get_tags(cat: &Catalog) -> (r: Vec<DatabaseTag>)
    ensures
        r.deep_view() == cat@.tags,
{
    let mut out: Vec<DatabaseTag> = Vec::new();
    let mut i: usize = 0;
    while i < cat.tags.len()
        invariant
            0 <= i <= cat.tags.len(),
            out.deep_view() =~~= cat@.tags.subrange(0, i as int),
        decreases cat.tags.len() - i,
    {
        let ghost rd = out.deep_view();
        out.push(cat.tags[i].duplicate());
        proof {
            assert(out.deep_view() =~~= rd.push(cat@.tags[i as int]));
            assert(cat@.tags.subrange(0, i + 1) =~= cat@.tags.subrange(0, i as int).push(
                cat@.tags[i as int],
            ));
        }
        i = i + 1;
    }
    proof {
        assert(cat@.tags.subrange(0, cat@.tags.len() as int) =~= cat@.tags);
    }
    out
}

/// All document rows, in storage order.
pub fn get_docs(cat: &Catalog) -> (r: Vec<DatabaseDoc>)
    ensures
        r.deep_view() == cat@.docs,
{
    let mut out: Vec<DatabaseDoc> = Vec::new();
    let mut i: usize = 0;
    while i < cat.docs.len()
        invariant
            0 <= i <= cat.docs.len(),
            out.deep_view() =~~= cat@.docs.subrange(0, i as int),
        decreases cat.docs.len() - i,
    {
        let ghost rd = out.deep_view();
        out.push(cat.docs[i].duplicate());
        proof {
            assert(out.deep_view() =~~= rd.push(cat@.docs[i as int]));
            assert(cat@.docs.subrange(0, i + 1) =~= cat@.docs.subrange(0, i as int).push(
                cat@.docs[i as int],
            ));
        }
        i = i + 1;
    }
    proof {
        assert(cat@.docs.subrange(0, cat@.docs.len() as int) =~= cat@.docs);
    }
    out
}

} // verus!
