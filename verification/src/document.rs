//! Document records: bibliographic rows, each carrying a denormalized,
//! comma-joined snapshot of its associated tag values, and an opaque
//! content identifier naming its stored file.

use crate::catalog::Catalog;
use crate::catalog::CatalogView;
use crate::catalog::add_missing_tags;
use crate::catalog::has_doc_id;
use crate::catalog::has_doc_title;
use crate::catalog::has_tag_value;
use crate::catalog::lemma_add_missing_snoc;
use crate::error::CatalogError;
use crate::tag::DatabaseTag;
use crate::tag::Tag;
use crate::text::canonical_tags;
use crate::text::join_comma;
use crate::text::lower_of;
use crate::text::to_lower;
use crate::text::token_list;
use vstd::prelude::*;
use vstd::string::*;

verus! {

/// The path with any trailing separators removed.
pub open spec fn strip_trailing_slashes(p: Seq<char>) -> Seq<char>
    decreases p.len(),
{
    if p.len() > 0 && p.last() == '/' {
        strip_trailing_slashes(p.drop_last())
    } else {
        p
    }
}

/// The suffix of `p` after the last occurrence of `c`, or `p` itself if
/// `c` does not occur.
pub open spec fn suffix_after_last(p: Seq<char>, c: char) -> Seq<char>
    decreases p.len(),
{
    if p.len() == 0 {
        p
    } else if p.last() == c {
        Seq::<char>::empty()
    } else {
        suffix_after_last(p.drop_last(), c).push(p.last())
    }
}

/// Whether the file name of `p` carries the extension `pdf`: the file
/// name is what follows the last separator once trailing separators are
/// dropped, and its extension is what follows its last dot, provided that
/// dot is not its first character.
pub open spec fn has_pdf_extension(p: Seq<char>) -> bool {
    let f = suffix_after_last(strip_trailing_slashes(p), '/');
    let e = suffix_after_last(f, '.');
    f.contains('.') && f.len() - e.len() > 1 && e == "pdf"@
}

proof fn lemma_strip_skip(p: Seq<char>, k: int)
    requires
        0 <= k <= p.len(),
        forall|j: int| k <= j < p.len() ==> p[j] == '/',
        k == 0 || p[k - 1] != '/',
    ensures
        strip_trailing_slashes(p) == p.subrange(0, k),
    decreases p.len() - k,
{
    if k == p.len() {
        assert(p.subrange(0, k) =~= p);
    } else {
        let t = p.drop_last();
        lemma_strip_skip(t, k);
    }
}

proof fn lemma_suffix_skip(q: Seq<char>, c: char, k: int)
    requires
        0 <= k <= q.len(),
        forall|j: int| k <= j < q.len() ==> q[j] != c,
        k == 0 || q[k - 1] == c,
    ensures
        suffix_after_last(q, c) == q.subrange(k, q.len() as int),
    decreases q.len(),
{
    if q.len() == 0 {
        assert(q.subrange(0, 0) =~= q);
    } else if k == q.len() {
        assert(q.last() == c);
        assert(q.subrange(k, q.len() as int) =~= Seq::<char>::empty());
    } else {
        assert(q.last() != c);
        let t = q.drop_last();
        lemma_suffix_skip(t, c, k);
        assert(suffix_after_last(q, c) =~= q.subrange(k, q.len() as int));
    }
}

/// Checks a path for the `pdf` extension, as the catalog requires of
/// source files.
pub fn has_pdf_ext(path: &str) -> (b: bool)
    ensures
        b == has_pdf_extension(path@),
{
    let n = path.unicode_len();
    let mut end: usize = n;
    while end > 0 && path.get_char(end - 1) == '/'
        invariant
            0 <= end <= n,
            n == path@.len(),
            forall|j: int| end <= j < n ==> path@[j] == '/',
        decreases end,
    {
        end = end - 1;
    }
    proof {
        lemma_strip_skip(path@, end as int);
    }
    let ghost q = path@.subrange(0, end as int);
    let mut start: usize = end;
    while start > 0 && path.get_char(start - 1) != '/'
        invariant
            0 <= start <= end,
            end <= n == path@.len(),
            forall|j: int| start <= j < end ==> path@[j] != '/',
        decreases start,
    {
        start = start - 1;
    }
    proof {
        assert(forall|j: int| start <= j < end ==> q[j] == path@[j]);
        lemma_suffix_skip(q, '/', start as int);
    }
    let ghost f = q.subrange(start as int, end as int);
    proof {
        assert(suffix_after_last(q, '/') =~= f);
    }
    let mut dot: usize = end;
    let mut found: bool = false;
    while dot > start && !found
        invariant
            start <= dot <= end,
            end <= n == path@.len(),
            found ==> dot < end && path@[dot as int] == '.',
            forall|j: int| dot < j < end ==> path@[j] != '.',
            !found ==> forall|j: int| dot <= j < end ==> path@[j] != '.',
        decreases dot - start + (if found { 0int } else { 1int }),
    {
        if path.get_char(dot - 1) == '.' {
            dot = dot - 1;
            found = true;
        } else {
            dot = dot - 1;
        }
    }
    if !found {
        proof {
            assert(forall|j: int| 0 <= j < f.len() ==> f[j] != '.');
            assert(!f.contains('.'));
        }
        return false;
    }
    proof {
        assert(f[dot - start] == '.');
        assert(f.contains('.'));
        assert(forall|j: int| dot + 1 - start <= j < f.len() ==> f[j] != '.');
        lemma_suffix_skip(f, '.', dot + 1 - start);
    }
    let ghost e = f.subrange(dot + 1 - start, f.len() as int);
    proof {
        assert(suffix_after_last(f, '.') =~= e);
        reveal_strlit("pdf");
    }
    if dot == start {
        proof {
            assert(f.len() - e.len() == 1);
        }
        return false;
    }
    if end - dot != 4 {
        proof {
            assert(e.len() != 3);
        }
        return false;
    }
    let ok = path.get_char(dot + 1) == 'p' && path.get_char(dot + 2) == 'd' && path.get_char(
        dot + 3,
    ) == 'f';
    proof {
        assert(e.len() == 3);
        assert(e[0] == path@[dot + 1] && e[1] == path@[dot + 2] && e[2] == path@[dot + 3]);
        if ok {
            assert(e =~= "pdf"@);
        } else {
            assert(e != "pdf"@);
        }
    }
    ok
}

/// The mathematical value of one stored document row.
pub ghost struct DocView {
    pub id: u32,
    pub title: Seq<char>,
    pub author: Seq<char>,
    pub year: u16,
    pub publication: Seq<char>,
    pub volume: u16,
    pub tags: Seq<char>,
    pub doi: Seq<char>,
    pub uuid: Seq<char>,
}

/// A document row as stored in the catalog.
#[derive(Debug, Hash)]
pub struct DatabaseDoc {
    pub id: u32,
    pub title: String,
    pub author: String,
    pub year: u16,
    pub publication: String,
    pub volume: u16,
    pub tags: String,
    pub doi: String,
    pub uuid: String,
}

impl View for DatabaseDoc {
    type V = DocView;

    open spec fn view(&self) -> DocView {
        DocView {
            id: self.id,
            title: self.title@,
            author: self.author@,
            year: self.year,
            publication: self.publication@,
            volume: self.volume,
            tags: self.tags@,
            doi: self.doi@,
            uuid: self.uuid@,
        }
    }
}

impl DeepView for DatabaseDoc {
    type V = DocView;

    open spec fn deep_view(&self) -> DocView {
        self@
    }
}

impl DatabaseDoc {
    /// An identical copy of the row.
    pub fn duplicate(&self) -> (r: DatabaseDoc)
        ensures
            r@ == self@,
    {
        DatabaseDoc {
            id: self.id,
            title: self.title.clone(),
            author: self.author.clone(),
            year: self.year,
            publication: self.publication.clone(),
            volume: self.volume,
            tags: self.tags.clone(),
            doi: self.doi.clone(),
            uuid: self.uuid.clone(),
        }
    }
}

/// Relies on uuid::Uuid::new_v4 and its hyphenated Display form: a fresh
/// random identifier rendered as exactly 36 characters.
#[verifier::external_body]
fn new_content_id() -> (r: String)
    ensures
        r@.len() == 36,
{
    uuid::Uuid::new_v4().to_string()
}

/// The file location a content identifier resolves to inside the store
/// directory: the identifier plus the fixed extension, joined to the
/// directory with a single separator.
pub open spec fn resolved_content_path(dir: Seq<char>, uuid: Seq<char>) -> Seq<char> {
    if dir.len() == 0 {
        uuid + ".pdf"@
    } else if dir.last() == '/' {
        dir + uuid + ".pdf"@
    } else {
        dir + seq!['/'] + uuid + ".pdf"@
    }
}

/// The deterministic mapping from a content identifier to its location
/// in the store directory; it does not ask whether the file exists.
pub fn resolve_content_path(store_dir: &str, uuid: &str) -> (r: String)
    ensures
        r@ == resolved_content_path(store_dir@, uuid@),
{
    let n = store_dir.unicode_len();
    let mut r = String::new();
    r.append(store_dir);
    if n > 0 && !(store_dir.get_char(n - 1) == '/') {
        r.append("/");
        proof {
            reveal_strlit("/");
            assert(r@ =~= store_dir@ + seq!['/']);
        }
    }
    r.append(uuid);
    r.append(".pdf");
    proof {
        assert(r@ =~= resolved_content_path(store_dir@, uuid@));
    }
    r
}

/// Creates a tag row for every listed value that the tag table lacks, in
/// order, assigning fresh ids.
pub(crate) fn create_missing_tags(toks: &Vec<String>, cat: &mut Catalog)
    requires
        old(cat)@.wf(),
        old(cat)@.next_tag_id + toks.deep_view().len() <= u32::MAX,
    ensures
        final(cat)@.wf(),
        final(cat)@.docs == old(cat)@.docs,
        final(cat)@.next_doc_id == old(cat)@.next_doc_id,
        old(cat)@.tags.is_prefix_of(final(cat)@.tags),
        final(cat)@.tags == add_missing_tags(
            old(cat)@.tags,
            old(cat)@.next_tag_id as int,
            toks.deep_view(),
        ).0,
        final(cat)@.next_tag_id as int == add_missing_tags(
            old(cat)@.tags,
            old(cat)@.next_tag_id as int,
            toks.deep_view(),
        ).1,
        forall|j: int|
            0 <= j < toks.deep_view().len() ==> has_tag_value(
                final(cat)@.tags,
                #[trigger] toks.deep_view()[j],
            ),
{
    let ghost tl = toks.deep_view();
    let mut i: usize = 0;
    while i < toks.len()
        invariant
            0 <= i <= toks.len(),
            toks.deep_view() == tl,
            cat@.wf(),
            old(cat)@.wf(),
            cat@.docs == old(cat)@.docs,
            cat@.next_doc_id == old(cat)@.next_doc_id,
            old(cat)@.tags.is_prefix_of(cat@.tags),
            cat@.next_tag_id as int <= old(cat)@.next_tag_id + i,
            old(cat)@.next_tag_id + tl.len() <= u32::MAX,
            cat@.tags == add_missing_tags(
                old(cat)@.tags,
                old(cat)@.next_tag_id as int,
                tl.take(i as int),
            ).0,
            cat@.next_tag_id as int == add_missing_tags(
                old(cat)@.tags,
                old(cat)@.next_tag_id as int,
                tl.take(i as int),
            ).1,
            forall|j: int| 0 <= j < i ==> has_tag_value(cat@.tags, #[trigger] tl[j]),
        decreases toks.len() - i,
    {
        let ghost cpre = cat@;
        let t = Tag { id: None, value: toks[i].clone() };
        let res = DatabaseTag::from_insert(t, cat);
        if res.is_err() {
            proof {
                assert(false);
            }
        }
        proof {
            assert(tl.take(i + 1) =~~= tl.take(i as int).push(tl[i as int]));
            lemma_add_missing_snoc(
                old(cat)@.tags,
                old(cat)@.next_tag_id as int,
                tl.take(i as int),
                tl[i as int],
            );
            assert forall|j: int| 0 <= j < i + 1 implies has_tag_value(
                cat@.tags,
                #[trigger] tl[j],
            ) by {
                if j < i {
                    let w = choose|w: int|
                        0 <= w < cpre.tags.len() && (#[trigger] cpre.tags[w]).value == tl[j];
                    assert(cat@.tags[w].value == tl[j]);
                } else {
                    if has_tag_value(cpre.tags, tl[i as int]) {
                        let w = choose|w: int|
                            0 <= w < cpre.tags.len() && (#[trigger] cpre.tags[w]).value
                                == tl[i as int];
                        assert(cat@.tags[w].value == tl[i as int]);
                    } else {
                        assert(cat@.tags[cpre.tags.len() as int].value == tl[i as int]);
                    }
                }
            }
            assert(old(cat)@.tags.is_prefix_of(cat@.tags)) by {
                assert(forall|w: int|
                    0 <= w < cpre.tags.len() ==> #[trigger] cat@.tags[w] == cpre.tags[w]);
                assert(old(cat)@.tags =~~= cat@.tags.take(old(cat)@.tags.len() as int));
            }
        }
        i = i + 1;
    }
    proof {
        assert(tl.take(tl.len() as int) =~~= tl);
    }
}

impl DatabaseDoc {
    /// The file name the stored copy of this document carries.
    pub fn stored_file_name(&self) -> (r: String)
        ensures
            r@ == self@.uuid + ".pdf"@,
    {
        let mut r = self.uuid.clone();
        r.append(".pdf");
        r
    }

    /// Whether the document's content is present in the store: its
    /// identifier is well formed and the caller found the file.
    pub fn is_stored(&self, file_present: bool) -> (b: bool)
        ensures
            b == (self@.uuid.len() == 36 && file_present),
    {
        self.uuid.unicode_len() == 36 && file_present
    }

    /// The location of the stored copy, or `NotFound` when the document
    /// is not stored; whether the file exists is the caller's finding.
    pub fn stored_path(&self, store_dir: &str, file_present: bool) -> (r: Result<
        String,
        CatalogError,
    >)
        ensures
            r is Ok <==> self@.uuid.len() == 36 && file_present,
            r matches Ok(p) ==> p@ == resolved_content_path(store_dir@, self@.uuid),
            r matches Err(e) ==> e == CatalogError::NotFound,
    {
        if !self.is_stored(file_present) {
            return Err(CatalogError::NotFound);
        }
        Ok(resolve_content_path(store_dir, self.uuid.as_str()))
    }

    /// The stored document row with id `id`, if any.
    pub fn from_id(id: u32, cat: &Catalog) -> (r: Option<DatabaseDoc>)
        ensures
            match r {
                Some(d) => d@.id == id && cat@.docs.contains(d@),
                None => !has_doc_id(cat@.docs, id),
            },
    {
        match cat.find_doc_by_id(id) {
            Some(i) => {
                let d = cat.doc_row(i).duplicate();
                proof {
                    assert(cat@.docs[i as int] == d@);
                }
                Some(d)
            },
            None => None,
        }
    }

    /// The stored document row with title `title`, if any; the match is
    /// exact.
    pub fn from_title(title: &str, cat: &Catalog) -> (r: Option<DatabaseDoc>)
        ensures
            match r {
                Some(d) => d@.title == title@ && cat@.docs.contains(d@),
                None => !has_doc_title(cat@.docs, title@),
            },
    {
        let ts = title.to_owned();
        match cat.find_doc_by_title(&ts) {
            Some(i) => {
                let d = cat.doc_row(i).duplicate();
                proof {
                    assert(cat@.docs[i as int] == d@);
                }
                Some(d)
            },
            None => None,
        }
    }

    /// The record a stored row denotes, given the resolved location of
    /// its stored content.
    pub fn to_document(self, stored_path: String) -> (r: Document)
        ensures
            r.id == Some(self@.id),
            r.title@ == self@.title,
            r.author@ == self@.author,
            r.year == self@.year,
            r.publication@ == self@.publication,
            r.volume == self@.volume,
            r.tags@ == self@.tags,
            r.doi@ == self@.doi,
            r.path@ == stored_path@,
    {
        Document {
            id: Some(self.id),
            title: self.title,
            author: self.author,
            year: self.year,
            publication: self.publication,
            volume: self.volume,
            tags: self.tags,
            doi: self.doi,
            path: stored_path,
        }
    }

    /// Inserts a document record.  A record whose title is already stored
    /// is returned as it stands (the duplicate is advisory, not an
    /// error).  Otherwise the row is created with a fresh id and a fresh
    /// 36-character content identifier, its tag string is lowercased and
    /// stored in canonical comma-joined form, and every tag token missing
    /// from the tag table is created with a fresh id.  The only failure
    /// is an exhausted id space.
    pub fn from_insert(doc: Document, cat: &mut Catalog) -> (r: Result<DatabaseDoc, CatalogError>)
        requires
            old(cat)@.wf(),
        ensures
            final(cat)@.wf(),
            r is Err <==> !has_doc_title(old(cat)@.docs, doc.title@) && (old(cat)@.next_doc_id
                == u32::MAX || old(cat)@.next_tag_id + token_list(lower_of(doc.tags@)).len()
                > u32::MAX),
            r matches Err(e) ==> e == CatalogError::IdExhausted && final(cat)@ == old(cat)@,
            r matches Ok(d) ==> if has_doc_title(old(cat)@.docs, doc.title@) {
                final(cat)@ == old(cat)@ && d@.title == doc.title@ && old(cat)@.docs.contains(d@)
            } else {
                &&& d@.id == old(cat)@.next_doc_id
                &&& d@.title == doc.title@
                &&& d@.author == doc.author@
                &&& d@.year == doc.year
                &&& d@.publication == doc.publication@
                &&& d@.volume == doc.volume
                &&& d@.doi == doc.doi@
                &&& d@.uuid.len() == 36
                &&& d@.tags == join_comma(token_list(lower_of(doc.tags@)))
                &&& final(cat)@.docs == old(cat)@.docs.push(d@)
                &&& final(cat)@.next_doc_id == old(cat)@.next_doc_id + 1
                &&& final(cat)@.tags == add_missing_tags(
                    old(cat)@.tags,
                    old(cat)@.next_tag_id as int,
                    token_list(lower_of(doc.tags@)),
                ).0
                &&& final(cat)@.next_tag_id as int == add_missing_tags(
                    old(cat)@.tags,
                    old(cat)@.next_tag_id as int,
                    token_list(lower_of(doc.tags@)),
                ).1
            },
    {
        match cat.find_doc_by_title(&doc.title) {
            Some(i) => {
                let d = cat.doc_row(i).duplicate();
                proof {
                    assert(cat@.docs[i as int] == d@);
                }
                Ok(d)
            },
            None => {
                let lowered = to_lower(doc.tags.as_str());
                let toks = crate::text::tokens_of(lowered.as_str());
                if cat.doc_ids_left() == 0 {
                    return Err(CatalogError::IdExhausted);
                }
                if toks.len() > cat.tag_ids_left() as usize {
                    return Err(CatalogError::IdExhausted);
                }
                create_missing_tags(&toks, cat);
                let ghost tl = token_list(lower_of(doc.tags@));
                let id = cat.peek_next_doc_id();
                let uuid = new_content_id();
                let stored = crate::text::join_strings(&toks);
                let row = DatabaseDoc {
                    id,
                    title: doc.title,
                    author: doc.author,
                    year: doc.year,
                    publication: doc.publication,
                    volume: doc.volume,
                    tags: stored,
                    doi: doc.doi,
                    uuid,
                };
                let out = row.duplicate();
                let ghost c1 = cat@;
                cat.append_doc_row(row);
                proof {
                    crate::text::lemma_token_list_entries(lower_of(doc.tags@));
                    crate::text::lemma_token_list_of_join(tl);
                    crate::text::lemma_nonempty_filter_all(tl);
                    assert(token_list(out@.tags) == tl);
                    assert(canonical_tags(out@.tags));
                    lemma_doc_push_wf(c1, cat@, out@);
                }
                Ok(out)
            },
        }
    }

    /// Removes this row from the document table by its title; a title
    /// that is not stored is a no-op.  The stored content file is the
    /// caller's to remove, best effort, using the row's identifier.
    pub fn delete(self, cat: &mut Catalog)
        requires
            old(cat)@.wf(),
        ensures
            final(cat)@.wf(),
            final(cat)@.tags == old(cat)@.tags,
            final(cat)@.next_tag_id == old(cat)@.next_tag_id,
            final(cat)@.next_doc_id == old(cat)@.next_doc_id,
            !has_doc_title(final(cat)@.docs, self.title@),
            if has_doc_title(old(cat)@.docs, self.title@) {
                exists|i: int|
                    0 <= i < old(cat)@.docs.len() && (#[trigger] old(cat)@.docs[i]).title
                        == self.title@ && final(cat)@.docs == old(cat)@.docs.remove(i)
            } else {
                final(cat)@ == old(cat)@
            },
    {
        match cat.find_doc_by_title(&self.title) {
            Some(i) => {
                let ghost c0 = cat@;
                cat.remove_doc_row_at(i);
                proof {
                    lemma_doc_remove_wf(c0, cat@, i as int, self.title@);
                }
            },
            None => (),
        }
    }

    /// Writes this row's bibliographic fields over the stored row with
    /// the same id; an id that is not stored is a no-op.  The stored
    /// row's content identifier is kept: it is immutable after insert.
    /// The row must be fit for the catalog: its tag string canonical with
    /// every token in the tag table, and its title not carried by any
    /// other document.
    pub fn update(&self, cat: &mut Catalog)
        requires
            old(cat)@.wf(),
            canonical_tags(self@.tags),
            forall|k: int|
                0 <= k < token_list(self@.tags).len() ==> has_tag_value(
                    old(cat)@.tags,
                    #[trigger] token_list(self@.tags)[k],
                ),
            forall|j: int|
                0 <= j < old(cat)@.docs.len() && (#[trigger] old(cat)@.docs[j]).id != self@.id
                    ==> old(cat)@.docs[j].title != self@.title,
        ensures
            final(cat)@.wf(),
            final(cat)@.tags == old(cat)@.tags,
            final(cat)@.next_tag_id == old(cat)@.next_tag_id,
            final(cat)@.next_doc_id == old(cat)@.next_doc_id,
            if has_doc_id(old(cat)@.docs, self@.id) {
                exists|i: int|
                    0 <= i < old(cat)@.docs.len() && (#[trigger] old(cat)@.docs[i]).id == self@.id
                        && final(cat)@.docs == old(cat)@.docs.update(
                        i,
                        (DocView { uuid: old(cat)@.docs[i].uuid, ..self@ }),
                    )
            } else {
                final(cat)@ == old(cat)@
            },
    {
        match cat.find_doc_by_id(self.id) {
            Some(i) => {
                let ghost c0 = cat@;
                let stored_uuid = cat.doc_row(i).uuid.clone();
                let mut row = self.duplicate();
                row.uuid = stored_uuid;
                let ghost rv = row@;
                cat.set_doc_row(i, row);
                proof {
                    assert(rv == (DocView { uuid: c0.docs[i as int].uuid, ..self@ }));
                    lemma_doc_update_wf(c0, cat@, i as int, rv);
                }
            },
            None => (),
        }
    }
}

/// Appending a fresh document row whose tokens are all stored keeps the
/// catalog well formed.
proof fn lemma_doc_push_wf(c1: CatalogView, c2: CatalogView, d: DocView)
    requires
        c1.wf(),
        !has_doc_title(c1.docs, d.title),
        d.id == c1.next_doc_id,
        c1.next_doc_id < u32::MAX,
        canonical_tags(d.tags),
        forall|k: int|
            0 <= k < token_list(d.tags).len() ==> has_tag_value(
                c1.tags,
                #[trigger] token_list(d.tags)[k],
            ),
        c2.docs == c1.docs.push(d),
        c2.tags == c1.tags,
        c2.next_doc_id == c1.next_doc_id + 1,
        c2.next_tag_id == c1.next_tag_id,
    ensures
        c2.wf(),
{
    assert forall|i: int| 0 <= i < c2.docs.len() implies (#[trigger] c2.docs[i]).id
        < c2.next_doc_id && canonical_tags(c2.docs[i].tags) by {
        if i < c1.docs.len() {
            assert(c2.docs[i] == c1.docs[i]);
        } else {
            assert(c2.docs[i] == d);
        }
    }
    assert forall|i: int, j: int|
        0 <= i < j < c2.docs.len() implies (#[trigger] c2.docs[i]).id != (
    #[trigger] c2.docs[j]).id && c2.docs[i].title != c2.docs[j].title by {
        assert(c2.docs[i] == c1.docs[i]);
        if j < c1.docs.len() {
            assert(c2.docs[j] == c1.docs[j]);
        } else {
            assert(c2.docs[j] == d);
            assert(c1.docs[i].id < c1.next_doc_id);
        }
    }
    assert forall|i: int, k: int|
        0 <= i < c2.docs.len() && 0 <= k < token_list(
            (#[trigger] c2.docs[i]).tags,
        ).len() implies has_tag_value(c2.tags, #[trigger] token_list(c2.docs[i].tags)[k]) by {
        if i < c1.docs.len() {
            assert(c2.docs[i] == c1.docs[i]);
            assert(has_tag_value(c1.tags, token_list(c1.docs[i].tags)[k]));
        } else {
            assert(c2.docs[i] == d);
        }
    }
}

/// Removing a document row keeps the catalog well formed.
proof fn lemma_doc_remove_wf(c0: CatalogView, c1: CatalogView, i: int, t: Seq<char>)
    requires
        c0.wf(),
        0 <= i < c0.docs.len(),
        c0.docs[i].title == t,
        c1.docs == c0.docs.remove(i),
        c1.tags == c0.tags,
        c1.next_tag_id == c0.next_tag_id,
        c1.next_doc_id == c0.next_doc_id,
    ensures
        c1.wf(),
        !has_doc_title(c1.docs, t),
{
    assert forall|a: int| 0 <= a < c1.docs.len() implies (#[trigger] c1.docs[a]).id
        < c1.next_doc_id && canonical_tags(c1.docs[a].tags) by {
        let a0 = if a < i {
            a
        } else {
            a + 1
        };
        assert(c1.docs[a] == c0.docs[a0]);
    }
    assert forall|a: int, b: int|
        0 <= a < b < c1.docs.len() implies (#[trigger] c1.docs[a]).id != (
    #[trigger] c1.docs[b]).id && c1.docs[a].title != c1.docs[b].title by {
        let a0 = if a < i {
            a
        } else {
            a + 1
        };
        let b0 = if b < i {
            b
        } else {
            b + 1
        };
        assert(c1.docs[a] == c0.docs[a0]);
        assert(c1.docs[b] == c0.docs[b0]);
    }
    assert forall|a: int| 0 <= a < c1.docs.len() implies (#[trigger] c1.docs[a]).title != t by {
        let a0 = if a < i {
            a
        } else {
            a + 1
        };
        assert(c1.docs[a] == c0.docs[a0]);
        assert(c0.docs[i].title == t);
        if a0 != i {
            assert(c0.docs[a0].title != c0.docs[i].title);
        }
    }
    assert forall|a: int, k: int|
        0 <= a < c1.docs.len() && 0 <= k < token_list(
            (#[trigger] c1.docs[a]).tags,
        ).len() implies has_tag_value(c1.tags, #[trigger] token_list(c1.docs[a].tags)[k]) by {
        let a0 = if a < i {
            a
        } else {
            a + 1
        };
        assert(c1.docs[a] == c0.docs[a0]);
        assert(has_tag_value(c0.tags, token_list(c0.docs[a0].tags)[k]));
    }
}

/// Overwriting a row with a fit replacement of the same id keeps the
/// catalog well formed.
proof fn lemma_doc_update_wf(c0: CatalogView, c1: CatalogView, i: int, d: DocView)
    requires
        c0.wf(),
        0 <= i < c0.docs.len(),
        c0.docs[i].id == d.id,
        canonical_tags(d.tags),
        forall|k: int|
            0 <= k < token_list(d.tags).len() ==> has_tag_value(
                c0.tags,
                #[trigger] token_list(d.tags)[k],
            ),
        forall|j: int|
            0 <= j < c0.docs.len() && (#[trigger] c0.docs[j]).id != d.id ==> c0.docs[j].title
                != d.title,
        c1.docs == c0.docs.update(i, d),
        c1.tags == c0.tags,
        c1.next_tag_id == c0.next_tag_id,
        c1.next_doc_id == c0.next_doc_id,
    ensures
        c1.wf(),
{
    assert forall|a: int| 0 <= a < c1.docs.len() implies (#[trigger] c1.docs[a]).id
        < c1.next_doc_id && canonical_tags(c1.docs[a].tags) by {
        if a != i {
            assert(c1.docs[a] == c0.docs[a]);
        } else {
            assert(c1.docs[a] == d);
            assert(c0.docs[i].id < c0.next_doc_id);
        }
    }
    assert forall|a: int, b: int|
        0 <= a < b < c1.docs.len() implies (#[trigger] c1.docs[a]).id != (
    #[trigger] c1.docs[b]).id && c1.docs[a].title != c1.docs[b].title by {
        if a != i && b != i {
            assert(c1.docs[a] == c0.docs[a]);
            assert(c1.docs[b] == c0.docs[b]);
        } else if a == i {
            assert(c1.docs[a] == d);
            assert(c1.docs[b] == c0.docs[b]);
            assert(c0.docs[b].id != c0.docs[i].id);
        } else {
            assert(c1.docs[b] == d);
            assert(c1.docs[a] == c0.docs[a]);
            assert(c0.docs[a].id != c0.docs[i].id);
        }
    }
    assert forall|a: int, k: int|
        0 <= a < c1.docs.len() && 0 <= k < token_list(
            (#[trigger] c1.docs[a]).tags,
        ).len() implies has_tag_value(c1.tags, #[trigger] token_list(c1.docs[a].tags)[k]) by {
        if a != i {
            assert(c1.docs[a] == c0.docs[a]);
            assert(has_tag_value(c0.tags, token_list(c0.docs[a].tags)[k]));
        } else {
            assert(c1.docs[a] == d);
        }
    }
}

/// The documents after a tag deletion: each row's tag string rewritten
/// with the value's tokens dropped.
pub open spec fn scrub_docs(docs: Seq<DocView>, v: Seq<char>) -> Seq<DocView> {
    docs.map_values(
        |d: DocView| DocView { tags: join_comma(crate::text::remove_list(d.tags, v)), ..d },
    )
}

/// The documents after a tag rename: each row's tag string rewritten with
/// tokens equal to `o` replaced by `n`.
pub open spec fn rename_docs(docs: Seq<DocView>, o: Seq<char>, n: Seq<char>) -> Seq<DocView> {
    docs.map_values(
        |d: DocView| DocView { tags: join_comma(crate::text::replace_list(d.tags, o, n)), ..d },
    )
}

/// The tag table after a rename: the row carrying `o` carries `n`, ids
/// kept.
pub open spec fn rename_tag_rows(tags: Seq<crate::tag::TagView>, o: Seq<char>, n: Seq<char>) -> Seq<
    crate::tag::TagView,
> {
    tags.map_values(
        |t: crate::tag::TagView|
            if t.value == o {
                crate::tag::TagView { id: t.id, value: n }
            } else {
                t
            },
    )
}

/// The documents whose tag string contains `f` as a substring.
pub open spec fn docs_matching(docs: Seq<DocView>, f: Seq<char>) -> Seq<DocView> {
    docs.filter(|d: DocView| crate::text::contains_sub(d.tags, f))
}

pub proof fn lemma_docs_matching_push(docs: Seq<DocView>, d: DocView, f: Seq<char>)
    ensures
        docs_matching(docs.push(d), f) == if crate::text::contains_sub(d.tags, f) {
            docs_matching(docs, f).push(d)
        } else {
            docs_matching(docs, f)
        },
{
    reveal(Seq::filter);
    assert((docs.push(d)).drop_last() =~= docs);
}

/// Scrubbing a tag value from every document keeps the catalog well
/// formed and leaves the value unreferenced.
proof fn lemma_scrub_wf(c0: CatalogView, c1: CatalogView, v: Seq<char>)
    requires
        c0.wf(),
        c1.docs == scrub_docs(c0.docs, v),
        c1.tags == c0.tags,
        c1.next_tag_id == c0.next_tag_id,
        c1.next_doc_id == c0.next_doc_id,
    ensures
        c1.wf(),
        !crate::catalog::tag_referenced(c1.docs, v),
        forall|a: int|
            0 <= a < c1.docs.len() ==> token_list((#[trigger] c1.docs[a]).tags)
                == crate::text::neq_filter(token_list(c0.docs[a].tags), v),
{
    assert forall|a: int| 0 <= a < c1.docs.len() implies canonical_tags(
        (#[trigger] c1.docs[a]).tags,
    ) && token_list(c1.docs[a].tags) == crate::text::neq_filter(token_list(c0.docs[a].tags), v)
        && c1.docs[a].id == c0.docs[a].id && c1.docs[a].title == c0.docs[a].title by {
        assert(canonical_tags(c0.docs[a].tags));
        crate::text::lemma_remove_tokens(c0.docs[a].tags, v);
    }
    assert forall|a: int, b: int|
        0 <= a < b < c1.docs.len() implies (#[trigger] c1.docs[a]).id != (
    #[trigger] c1.docs[b]).id && c1.docs[a].title != c1.docs[b].title by {
        assert(c0.docs[a].id != c0.docs[b].id && c0.docs[a].title != c0.docs[b].title);
    }
    assert forall|a: int, k: int|
        0 <= a < c1.docs.len() && 0 <= k < token_list(
            (#[trigger] c1.docs[a]).tags,
        ).len() implies has_tag_value(c1.tags, #[trigger] token_list(c1.docs[a].tags)[k]) by {
        let nt = token_list(c1.docs[a].tags);
        let ot = token_list(c0.docs[a].tags);
        crate::text::lemma_neq_filter_elems(ot, v);
        assert(ot.contains(nt[k]));
        let w = choose|w: int| 0 <= w < ot.len() && ot[w] == nt[k];
        assert(has_tag_value(c0.tags, ot[w]));
    }
    assert forall|a: int, k: int|
        0 <= a < c1.docs.len() && 0 <= k < token_list(
            (#[trigger] c1.docs[a]).tags,
        ).len() implies #[trigger] token_list(c1.docs[a].tags)[k] != v by {
        crate::text::lemma_neq_filter_pred(token_list(c0.docs[a].tags), v);
    }
}

/// Renaming a tag value in every document and in the tag table keeps the
/// catalog well formed.
proof fn lemma_rename_wf(c0: CatalogView, c1: CatalogView, o: Seq<char>, n: Seq<char>)
    requires
        c0.wf(),
        o.len() > 0,
        crate::text::trimmed(n) == n,
        n.len() > 0,
        !n.contains(','),
        has_tag_value(c0.tags, n) ==> n == o,
        c1.docs == rename_docs(c0.docs, o, n),
        c1.tags == rename_tag_rows(c0.tags, o, n),
        c1.next_tag_id == c0.next_tag_id,
        c1.next_doc_id == c0.next_doc_id,
    ensures
        c1.wf(),
        forall|a: int|
            0 <= a < c1.docs.len() ==> token_list((#[trigger] c1.docs[a]).tags)
                == crate::text::replace_tokens(token_list(c0.docs[a].tags), o, n),
{
    assert forall|a: int| 0 <= a < c1.docs.len() implies canonical_tags(
        (#[trigger] c1.docs[a]).tags,
    ) && token_list(c1.docs[a].tags) == crate::text::replace_tokens(
        token_list(c0.docs[a].tags),
        o,
        n,
    ) && c1.docs[a].id == c0.docs[a].id && c1.docs[a].title == c0.docs[a].title by {
        assert(canonical_tags(c0.docs[a].tags));
        crate::text::lemma_rename_tokens(c0.docs[a].tags, o, n);
    }
    assert forall|i: int| 0 <= i < c1.tags.len() implies (#[trigger] c1.tags[i]).id
        < c1.next_tag_id by {
        assert(c0.tags[i].id < c0.next_tag_id);
    }
    assert forall|i: int, j: int|
        0 <= i < j < c1.tags.len() implies (#[trigger] c1.tags[i]).id != (
    #[trigger] c1.tags[j]).id && c1.tags[i].value != c1.tags[j].value by {
        assert(c0.tags[i].id != c0.tags[j].id && c0.tags[i].value != c0.tags[j].value);
        if c0.tags[i].value == o && c0.tags[j].value != o {
            assert(c1.tags[i].value == n);
            if c0.tags[j].value == n {
                assert(has_tag_value(c0.tags, n));
            }
        }
        if c0.tags[j].value == o && c0.tags[i].value != o {
            assert(c1.tags[j].value == n);
            if c0.tags[i].value == n {
                assert(has_tag_value(c0.tags, n));
            }
        }
    }
    assert forall|a: int, b: int|
        0 <= a < b < c1.docs.len() implies (#[trigger] c1.docs[a]).id != (
    #[trigger] c1.docs[b]).id && c1.docs[a].title != c1.docs[b].title by {
        assert(c0.docs[a].id != c0.docs[b].id && c0.docs[a].title != c0.docs[b].title);
    }
    assert forall|a: int, k: int|
        0 <= a < c1.docs.len() && 0 <= k < token_list(
            (#[trigger] c1.docs[a]).tags,
        ).len() implies has_tag_value(c1.tags, #[trigger] token_list(c1.docs[a].tags)[k]) by {
        let ot = token_list(c0.docs[a].tags);
        let tok = token_list(c1.docs[a].tags)[k];
        assert(token_list(c1.docs[a].tags) == crate::text::replace_tokens(ot, o, n));
        assert(tok == if ot[k] == o {
            n
        } else {
            ot[k]
        });
        assert(has_tag_value(c0.tags, ot[k]));
        let w = choose|w: int| 0 <= w < c0.tags.len() && (#[trigger] c0.tags[w]).value == ot[k];
        if ot[k] == o {
            assert(c1.tags[w].value == n);
        } else {
            assert(c1.tags[w].value == ot[k]);
        }
    }
}

/// An ordered listing of document rows.
#[derive(Debug)]
pub struct DocList(pub Vec<DatabaseDoc>);

impl View for DocList {
    type V = Seq<DocView>;

    open spec fn view(&self) -> Seq<DocView> {
        self.0.deep_view()
    }
}

impl DocList {
    /// All document rows, in storage order.
    pub fn get_all(cat: &Catalog) -> (r: DocList)
        ensures
            r@ == cat@.docs,
    {
        DocList(crate::catalog::get_docs(cat))
    }

    /// The documents whose denormalized tag string contains the fragment,
    /// lowercased, as a substring; the match is not token-exact, so a
    /// fragment may also hit inside a longer tag value.
    pub fn from_tag(fragment: &str, cat: &Catalog) -> (r: DocList)
        ensures
            r@ == docs_matching(cat@.docs, lower_of(fragment@)),
    {
        let lf = to_lower(fragment);
        let mut out: Vec<DatabaseDoc> = Vec::new();
        let mut i: usize = 0;
        while i < cat.doc_count()
            invariant
                0 <= i <= cat@.docs.len(),
                out.deep_view() =~~= docs_matching(cat@.docs.take(i as int), lf@),
                lf@ == lower_of(fragment@),
            decreases cat@.docs.len() - i,
        {
            let ghost pre = cat@.docs.take(i as int);
            let ghost rd = out.deep_view();
            proof {
                assert(cat@.docs.take(i + 1) =~= pre.push(cat@.docs[i as int]));
                lemma_docs_matching_push(pre, cat@.docs[i as int], lf@);
            }
            let row = cat.doc_row(i);
            if crate::text::contains_substring(row.tags.as_str(), lf.as_str()) {
                out.push(row.duplicate());
                proof {
                    assert(out.deep_view() =~~= rd.push(cat@.docs[i as int]));
                }
            }
            i = i + 1;
        }
        proof {
            assert(cat@.docs.take(cat@.docs.len() as int) =~= cat@.docs);
        }
        DocList(out)
    }

    /// The synchronizer's deletion pass: rewrites every document's tag
    /// string with the tokens equal to `tag` dropped, so no document
    /// references the value any longer.
    pub fn delete_tag(tag: &String, cat: &mut Catalog)
        requires
            old(cat)@.wf(),
        ensures
            final(cat)@.wf(),
            final(cat)@.docs == scrub_docs(old(cat)@.docs, tag@),
            final(cat)@.tags == old(cat)@.tags,
            final(cat)@.next_tag_id == old(cat)@.next_tag_id,
            final(cat)@.next_doc_id == old(cat)@.next_doc_id,
            !crate::catalog::tag_referenced(final(cat)@.docs, tag@),
            forall|a: int|
                0 <= a < final(cat)@.docs.len() ==> token_list(
                    (#[trigger] final(cat)@.docs[a]).tags,
                ) == crate::text::neq_filter(token_list(old(cat)@.docs[a].tags), tag@),
    {
        let ghost c0 = cat@;
        let n = cat.doc_count();
        let mut i: usize = 0;
        while i < n
            invariant
                0 <= i <= n,
                n == cat@.docs.len(),
                cat@.docs.len() == c0.docs.len(),
                cat@.tags == c0.tags,
                cat@.next_tag_id == c0.next_tag_id,
                cat@.next_doc_id == c0.next_doc_id,
                forall|j: int| 0 <= j < i ==> cat@.docs[j] == scrub_docs(c0.docs, tag@)[j],
                forall|j: int| i <= j < n ==> cat@.docs[j] == c0.docs[j],
            decreases n - i,
        {
            let row = cat.doc_row(i).duplicate();
            let nt = crate::text::remove_token(row.tags.as_str(), tag);
            let row2 = DatabaseDoc { tags: nt, ..row };
            cat.set_doc_row(i, row2);
            i = i + 1;
        }
        proof {
            assert(cat@.docs =~~= scrub_docs(c0.docs, tag@));
            lemma_scrub_wf(c0, cat@, tag@);
        }
    }

    /// The synchronizer's rename pass: rewrites every document's tag
    /// string with tokens equal to the old value replaced by the new one,
    /// and gives the tag table row carrying the old value the new value.
    /// Both values are lowercased first.  The new value must be a fit
    /// token (non-empty, trimmed, comma-free), the old value non-empty,
    /// and the new value must not collide with a different stored value.
    pub fn modify_tag(old_value: &str, new_value: &str, cat: &mut Catalog) -> (r: Result<
        (),
        CatalogError,
    >)
        requires
            old(cat)@.wf(),
        ensures
            final(cat)@.wf(),
            ({
                let lo = lower_of(old_value@);
                let ln = lower_of(new_value@);
                let bad = lo.len() == 0 || ln.len() == 0 || crate::text::trimmed(ln) != ln
                    || ln.contains(',');
                let dup = !bad && ln != lo && has_tag_value(old(cat)@.tags, ln);
                &&& r matches Err(e) ==> final(cat)@ == old(cat)@ && (e
                    == CatalogError::InvalidValue || e == CatalogError::DuplicateValue)
                &&& (r == Err::<(), CatalogError>(CatalogError::InvalidValue) <==> bad)
                &&& (r == Err::<(), CatalogError>(CatalogError::DuplicateValue) <==> dup)
                &&& r is Ok <==> !bad && !dup
                &&& r is Ok ==> {
                    &&& final(cat)@.docs == rename_docs(old(cat)@.docs, lo, ln)
                    &&& final(cat)@.tags == rename_tag_rows(old(cat)@.tags, lo, ln)
                    &&& final(cat)@.next_tag_id == old(cat)@.next_tag_id
                    &&& final(cat)@.next_doc_id == old(cat)@.next_doc_id
                }
            }),
    {
        let lo = to_lower(old_value);
        let ln = to_lower(new_value);
        if lo.as_str().is_empty() || ln.as_str().is_empty() {
            return Err(CatalogError::InvalidValue);
        }
        let lt = crate::text::trimmed_str(ln.as_str()).to_owned();
        if !(lt == ln) || crate::text::contains_char(ln.as_str(), ',') {
            return Err(CatalogError::InvalidValue);
        }
        if !(ln == lo) {
            match cat.find_tag_by_value(&ln) {
                Some(i) => {
                    proof {
                        assert(cat@.tags[i as int].value == ln@);
                    }
                    return Err(CatalogError::DuplicateValue);
                },
                None => (),
            }
        }
        let ghost c0 = cat@;
        let n = cat.doc_count();
        let mut i: usize = 0;
        while i < n
            invariant
                0 <= i <= n,
                n == cat@.docs.len(),
                cat@.docs.len() == c0.docs.len(),
                cat@.tags == c0.tags,
                cat@.next_tag_id == c0.next_tag_id,
                cat@.next_doc_id == c0.next_doc_id,
                forall|j: int| 0 <= j < i ==> cat@.docs[j] == rename_docs(c0.docs, lo@, ln@)[j],
                forall|j: int| i <= j < n ==> cat@.docs[j] == c0.docs[j],
            decreases n - i,
        {
            let row = cat.doc_row(i).duplicate();
            let rw = crate::text::rename_token(row.tags.as_str(), &lo, &ln);
            let row2 = DatabaseDoc { tags: rw.0, ..row };
            cat.set_doc_row(i, row2);
            i = i + 1;
        }
        proof {
            assert(cat@.docs =~~= rename_docs(c0.docs, lo@, ln@));
        }
        let ghost c2 = cat@;
        match cat.find_tag_by_value(&lo) {
            Some(j) => {
                cat.set_tag_value(j, ln.clone());
                proof {
                    assert(c0.tags[j as int].value == lo@);
                    assert forall|w: int| 0 <= w < c0.tags.len() implies #[trigger] cat@.tags[w]
                        == rename_tag_rows(c0.tags, lo@, ln@)[w] by {
                        if w != j {
                            assert(c0.tags[w].value != c0.tags[j as int].value);
                        }
                    }
                    assert(cat@.tags =~~= rename_tag_rows(c0.tags, lo@, ln@));
                }
            },
            None => {
                proof {
                    assert forall|w: int| 0 <= w < c0.tags.len() implies #[trigger] cat@.tags[w]
                        == rename_tag_rows(c0.tags, lo@, ln@)[w] by {
                        assert(c0.tags[w].value != lo@);
                    }
                    assert(cat@.tags =~~= rename_tag_rows(c0.tags, lo@, ln@));
                }
            },
        }
        proof {
            lemma_rename_wf(c0, cat@, lo@, ln@);
        }
        Ok(())
    }
}

/// A document record as a caller supplies it: bibliographic fields and
/// the path of the source file; an id once stored.
#[derive(Debug)]
pub struct Document {
    pub id: Option<u32>,
    pub title: String,
    pub author: String,
    pub year: u16,
    pub publication: String,
    pub volume: u16,
    pub tags: String,
    pub doi: String,
    pub path: String,
}

impl Document {
    /// Lowercases one input value; this is how every normalized field is
    /// prepared.
    pub fn input_to_lowercase(value: &str) -> (r: Result<String, CatalogError>)
        ensures
            r is Ok,
            r matches Ok(v) ==> v@ == lower_of(value@),
    {
        Ok(to_lower(value))
    }

    /// Accepts a source path only when it names an existing PDF file;
    /// whether a file exists at the path is the caller's finding.
    pub fn verify_path(path: &str, path_is_file: bool) -> (r: Result<String, CatalogError>)
        ensures
            r is Ok <==> path_is_file && has_pdf_extension(path@),
            r matches Ok(p) ==> p@ == path@,
            r matches Err(e) ==> e == CatalogError::InvalidSource,
    {
        if path_is_file && has_pdf_ext(path) {
            Ok(path.to_owned())
        } else {
            Err(CatalogError::InvalidSource)
        }
    }

    /// The default for the numeric fields.
    pub fn default_u16() -> (r: u16)
        ensures
            r == 0,
    {
        0
    }

    /// A minimal record: a title, normalized to lowercase, and a valid
    /// source path; every other field empty or zero.
    pub fn new(title: &str, path: &str, path_is_file: bool) -> (r: Result<Document, CatalogError>)
        ensures
            r is Ok <==> path_is_file && has_pdf_extension(path@),
            r matches Ok(d) ==> d.id == None::<u32> && d.title@ == lower_of(title@) && d.author@
                =~= Seq::<char>::empty() && d.year == 0 && d.publication@ =~= Seq::<char>::empty()
                && d.volume == 0 && d.tags@ =~= Seq::<char>::empty() && d.doi@ =~= Seq::<
                char,
            >::empty() && d.path@ == path@,
            r matches Err(e) ==> e == CatalogError::InvalidSource,
    {
        if !path_is_file || !has_pdf_ext(path) {
            return Err(CatalogError::InvalidSource);
        }
        Ok(
            Document {
                id: None,
                title: to_lower(title),
                author: String::new(),
                year: 0,
                publication: String::new(),
                volume: 0,
                tags: String::new(),
                doi: String::new(),
                path: path.to_owned(),
            },
        )
    }
}

/// Whether the record `d` reads back the stored row `row`, with its path
/// resolved inside the store directory.
pub open spec fn doc_matches_row(d: Document, row: DocView, dir: Seq<char>) -> bool {
    &&& d.id == Some(row.id)
    &&& d.title@ == row.title
    &&& d.author@ == row.author
    &&& d.year == row.year
    &&& d.publication@ == row.publication
    &&& d.volume == row.volume
    &&& d.tags@ == row.tags
    &&& d.doi@ == row.doi
    &&& d.path@ == resolved_content_path(dir, row.uuid)
}

impl Document {
    /// An identical copy of the record.
    pub fn duplicate(&self) -> (r: Document)
        ensures
            r.id == self.id,
            r.title@ == self.title@,
            r.author@ == self.author@,
            r.year == self.year,
            r.publication@ == self.publication@,
            r.volume == self.volume,
            r.tags@ == self.tags@,
            r.doi@ == self.doi@,
            r.path@ == self.path@,
    {
        Document {
            id: self.id,
            title: self.title.clone(),
            author: self.author.clone(),
            year: self.year,
            publication: self.publication.clone(),
            volume: self.volume,
            tags: self.tags.clone(),
            doi: self.doi.clone(),
            path: self.path.clone(),
        }
    }

    /// The stored document with id `id`, read back as a record whose path
    /// points into the store directory, or `NotFound`.
    pub fn from_id(id: u32, cat: &Catalog, store_dir: &str) -> (r: Result<Document, CatalogError>)
        ensures
            r is Err <==> !has_doc_id(cat@.docs, id),
            r matches Err(e) ==> e == CatalogError::NotFound,
            r matches Ok(d) ==> exists|w: int|
                0 <= w < cat@.docs.len() && (#[trigger] cat@.docs[w]).id == id && doc_matches_row(
                    d,
                    cat@.docs[w],
                    store_dir@,
                ),
    {
        match DatabaseDoc::from_id(id, cat) {
            Some(row) => {
                let ghost rv = row@;
                let p = resolve_content_path(store_dir, row.uuid.as_str());
                let d = row.to_document(p);
                proof {
                    let w = choose|w: int|
                        0 <= w < cat@.docs.len() && #[trigger] cat@.docs[w] == rv;
                    assert(cat@.docs[w].id == id && doc_matches_row(d, cat@.docs[w], store_dir@));
                }
                Ok(d)
            },
            None => Err(CatalogError::NotFound),
        }
    }

    /// The stored document with the given title, lowercased, read back as
    /// a record, or `NotFound`.
    pub fn from_title(title: &str, cat: &Catalog, store_dir: &str) -> (r: Result<
        Document,
        CatalogError,
    >)
        ensures
            r is Err <==> !has_doc_title(cat@.docs, lower_of(title@)),
            r matches Err(e) ==> e == CatalogError::NotFound,
            r matches Ok(d) ==> exists|w: int|
                0 <= w < cat@.docs.len() && (#[trigger] cat@.docs[w]).title == lower_of(title@)
                    && doc_matches_row(d, cat@.docs[w], store_dir@),
    {
        let lt = to_lower(title);
        match DatabaseDoc::from_title(lt.as_str(), cat) {
            Some(row) => {
                let ghost rv = row@;
                let p = resolve_content_path(store_dir, row.uuid.as_str());
                let d = row.to_document(p);
                proof {
                    let w = choose|w: int|
                        0 <= w < cat@.docs.len() && #[trigger] cat@.docs[w] == rv;
                    assert(cat@.docs[w].title == lower_of(title@) && doc_matches_row(
                        d,
                        cat@.docs[w],
                        store_dir@,
                    ));
                }
                Ok(d)
            },
            None => Err(CatalogError::NotFound),
        }
    }

    /// The resolved location of this record's stored content, looked up
    /// by its title: `NotFound` when no row carries the title, when the
    /// row's content identifier is malformed, or when the caller found
    /// no file in the store.
    pub fn stored_path(&self, cat: &Catalog, store_dir: &str, file_present: bool) -> (r: Result<
        String,
        CatalogError,
    >)
        requires
            cat@.wf(),
        ensures
            r is Ok <==> exists|w: int|
                0 <= w < cat@.docs.len() && (#[trigger] cat@.docs[w]).title == self.title@
                    && cat@.docs[w].uuid.len() == 36 && file_present,
            r matches Err(e) ==> e == CatalogError::NotFound,
            r matches Ok(p) ==> exists|w: int|
                0 <= w < cat@.docs.len() && (#[trigger] cat@.docs[w]).title == self.title@ && p@
                    == resolved_content_path(store_dir@, cat@.docs[w].uuid),
    {
        match cat.find_doc_by_title(&self.title) {
            Some(i) => {
                let row = cat.doc_row(i);
                proof {
                    assert(cat@.docs[i as int].title == self.title@);
                }
                let r = row.stored_path(store_dir, file_present);
                proof {
                    if r is Err {
                        assert forall|w: int|
                            0 <= w < cat@.docs.len() && (#[trigger] cat@.docs[w]).title
                                == self.title@ implies !(cat@.docs[w].uuid.len() == 36
                            && file_present) by {
                            if w != i as int {
                                assert(cat@.docs[w].title != cat@.docs[i as int].title);
                            }
                        }
                    }
                }
                r
            },
            None => Err(CatalogError::NotFound),
        }
    }

    /// Inserts this record; the same advisory-duplicate and
    /// tag-auto-creation behavior as the row-level insert.
    pub fn insert(self, cat: &mut Catalog) -> (r: Result<DatabaseDoc, CatalogError>)
        requires
            old(cat)@.wf(),
        ensures
            final(cat)@.wf(),
            r is Err <==> !has_doc_title(old(cat)@.docs, self.title@) && (old(cat)@.next_doc_id
                == u32::MAX || old(cat)@.next_tag_id + token_list(lower_of(self.tags@)).len()
                > u32::MAX),
            r matches Err(e) ==> e == CatalogError::IdExhausted && final(cat)@ == old(cat)@,
            r matches Ok(d) ==> if has_doc_title(old(cat)@.docs, self.title@) {
                final(cat)@ == old(cat)@ && d@.title == self.title@ && old(cat)@.docs.contains(d@)
            } else {
                &&& d@.id == old(cat)@.next_doc_id
                &&& d@.title == self.title@
                &&& d@.author == self.author@
                &&& d@.year == self.year
                &&& d@.publication == self.publication@
                &&& d@.volume == self.volume
                &&& d@.doi == self.doi@
                &&& d@.uuid.len() == 36
                &&& d@.tags == join_comma(token_list(lower_of(self.tags@)))
                &&& final(cat)@.docs == old(cat)@.docs.push(d@)
                &&& final(cat)@.next_doc_id == old(cat)@.next_doc_id + 1
                &&& final(cat)@.tags == add_missing_tags(
                    old(cat)@.tags,
                    old(cat)@.next_tag_id as int,
                    token_list(lower_of(self.tags@)),
                ).0
                &&& final(cat)@.next_tag_id as int == add_missing_tags(
                    old(cat)@.tags,
                    old(cat)@.next_tag_id as int,
                    token_list(lower_of(self.tags@)),
                ).1
            },
    {
        DatabaseDoc::from_insert(self, cat)
    }

    /// Deletes this record's row by its title, returning the removed row
    /// so the caller can remove the stored content file, best effort.  A
    /// title that is not stored is a no-op.
    pub fn delete(self, cat: &mut Catalog) -> (r: Option<DatabaseDoc>)
        requires
            old(cat)@.wf(),
        ensures
            final(cat)@.wf(),
            final(cat)@.tags == old(cat)@.tags,
            final(cat)@.next_tag_id == old(cat)@.next_tag_id,
            final(cat)@.next_doc_id == old(cat)@.next_doc_id,
            !has_doc_title(final(cat)@.docs, self.title@),
            match r {
                Some(d) => d@.title == self.title@ && exists|i: int|
                    0 <= i < old(cat)@.docs.len() && #[trigger] old(cat)@.docs[i] == d@
                        && final(cat)@.docs == old(cat)@.docs.remove(i),
                None => !has_doc_title(old(cat)@.docs, self.title@) && final(cat)@ == old(cat)@,
            },
    {
        match cat.find_doc_by_title(&self.title) {
            Some(i) => {
                let row = cat.doc_row(i).duplicate();
                let ghost c0 = cat@;
                cat.remove_doc_row_at(i);
                proof {
                    lemma_doc_remove_wf(c0, cat@, i as int, self.title@);
                }
                Some(row)
            },
            None => None,
        }
    }

    /// Deletes the row whose title is the given one lowercased, returning
    /// the removed row so the caller can remove the stored content file.
    pub fn delete_from_title(title: &str, cat: &mut Catalog) -> (r: Option<DatabaseDoc>)
        requires
            old(cat)@.wf(),
        ensures
            final(cat)@.wf(),
            final(cat)@.tags == old(cat)@.tags,
            final(cat)@.next_tag_id == old(cat)@.next_tag_id,
            final(cat)@.next_doc_id == old(cat)@.next_doc_id,
            !has_doc_title(final(cat)@.docs, lower_of(title@)),
            match r {
                Some(d) => d@.title == lower_of(title@) && exists|i: int|
                    0 <= i < old(cat)@.docs.len() && #[trigger] old(cat)@.docs[i] == d@
                        && final(cat)@.docs == old(cat)@.docs.remove(i),
                None => !has_doc_title(old(cat)@.docs, lower_of(title@)) && final(cat)@ == old(
                    cat,
                )@,
            },
    {
        let lt = to_lower(title);
        match cat.find_doc_by_title(&lt) {
            Some(i) => {
                let row = cat.doc_row(i).duplicate();
                let ghost c0 = cat@;
                cat.remove_doc_row_at(i);
                proof {
                    lemma_doc_remove_wf(c0, cat@, i as int, lt@);
                }
                Some(row)
            },
            None => None,
        }
    }
}

/// The total token count of a batch of records, as insertion lowercases
/// and tokenizes them.
pub open spec fn total_tokens(docs: Seq<Document>) -> int
    decreases docs.len(),
{
    if docs.len() == 0 {
        0
    } else {
        token_list(lower_of(docs[0].tags@)).len() + total_tokens(docs.drop_first())
    }
}

proof fn lemma_total_tokens_nonneg(docs: Seq<Document>)
    ensures
        total_tokens(docs) >= 0,
    decreases docs.len(),
{
    if docs.len() > 0 {
        lemma_total_tokens_nonneg(docs.drop_first());
    }
}

/// A batch of document records, as a bulk-import file describes them.
#[derive(Debug)]
pub struct TomlDocuments {
    pub documents: Vec<Document>,
}

impl TomlDocuments {
    /// Inserts the records in order, stopping at the first failure; the
    /// records inserted before a failure remain, nothing is rolled back.
    /// When both id counters have room for the whole batch, the batch
    /// succeeds.
    pub fn add_to_db(self, cat: &mut Catalog) -> (r: Result<(), CatalogError>)
        requires
            old(cat)@.wf(),
        ensures
            final(cat)@.wf(),
            old(cat)@.docs.is_prefix_of(final(cat)@.docs),
            old(cat)@.tags.is_prefix_of(final(cat)@.tags),
            r matches Err(e) ==> e == CatalogError::IdExhausted && exists|k: int|
                0 <= k < self.documents@.len() && (forall|j: int|
                    0 <= j < k ==> has_doc_title(
                        final(cat)@.docs,
                        (#[trigger] self.documents@[j]).title@,
                    )) && !has_doc_title(
                    final(cat)@.docs,
                    (#[trigger] self.documents@[k]).title@,
                ) && (final(cat)@.next_doc_id == u32::MAX || final(cat)@.next_tag_id
                    + token_list(lower_of(self.documents@[k].tags@)).len() > u32::MAX),
            (old(cat)@.next_doc_id + self.documents@.len() <= u32::MAX && old(cat)@.next_tag_id
                + total_tokens(self.documents@) <= u32::MAX) ==> r is Ok,
            r is Ok ==> forall|j: int|
                0 <= j < self.documents@.len() ==> has_doc_title(
                    final(cat)@.docs,
                    (#[trigger] self.documents@[j]).title@,
                ),
    {
        let n = self.documents.len();
        proof {
            assert(self.documents@.skip(0) =~= self.documents@);
        }
        let mut i: usize = 0;
        while i < n
            invariant
                0 <= i <= n,
                n == self.documents@.len(),
                cat@.wf(),
                cat@.next_doc_id <= old(cat)@.next_doc_id + i,
                old(cat)@.docs.is_prefix_of(cat@.docs),
                old(cat)@.tags.is_prefix_of(cat@.tags),
                (old(cat)@.next_tag_id + total_tokens(self.documents@) <= u32::MAX)
                    ==> cat@.next_tag_id + total_tokens(self.documents@.skip(i as int))
                    <= u32::MAX,
                forall|j: int|
                    0 <= j < i ==> has_doc_title(
                        cat@.docs,
                        (#[trigger] self.documents@[j]).title@,
                    ),
            decreases n - i,
        {
            let ghost rest = self.documents@.skip(i as int);
            proof {
                assert(rest[0] == self.documents@[i as int]);
                assert(rest.drop_first() =~= self.documents@.skip(i + 1));
                assert(total_tokens(rest) == token_list(
                    lower_of(self.documents@[i as int].tags@),
                ).len() + total_tokens(self.documents@.skip(i + 1)));
            }
            let doc = self.documents[i].duplicate();
            let ghost cpre = cat@;
            let ghost tl = token_list(lower_of(doc.tags@));
            let res = DatabaseDoc::from_insert(doc, cat);
            match res {
                Ok(_) => (),
                Err(e) => {
                    proof {
                        lemma_total_tokens_nonneg(self.documents@.skip(i + 1));
                        if cpre.next_tag_id + tl.len() > u32::MAX {
                            assert(!(old(cat)@.next_tag_id + total_tokens(self.documents@)
                                <= u32::MAX));
                        } else {
                            assert(cpre.next_doc_id == u32::MAX);
                            assert(!(old(cat)@.next_doc_id + self.documents@.len()
                                <= u32::MAX));
                        }
                        assert((forall|j: int|
                            0 <= j < i ==> has_doc_title(
                                final(cat)@.docs,
                                (#[trigger] self.documents@[j]).title@,
                            )) && !has_doc_title(
                            final(cat)@.docs,
                            (#[trigger] self.documents@[i as int]).title@,
                        ));
                    }
                    return Err(e);
                },
            }
            proof {
                crate::catalog::lemma_add_missing_bound(cpre.tags, cpre.next_tag_id as int, tl);
                if !has_doc_title(cpre.docs, self.documents@[i as int].title@) {
                    crate::catalog::lemma_add_missing_prefix(
                        cpre.tags,
                        cpre.next_tag_id as int,
                        tl,
                    );
                    assert(cpre.docs.is_prefix_of(cat@.docs)) by {
                        assert(cpre.docs =~~= cat@.docs.take(cpre.docs.len() as int));
                    }
                }
                assert(old(cat)@.docs.is_prefix_of(cat@.docs)) by {
                    assert(old(cat)@.docs =~~= cat@.docs.take(old(cat)@.docs.len() as int));
                }
                assert(old(cat)@.tags.is_prefix_of(cat@.tags)) by {
                    assert(old(cat)@.tags =~~= cat@.tags.take(old(cat)@.tags.len() as int));
                }
                assert forall|j: int| 0 <= j < i + 1 implies has_doc_title(
                    cat@.docs,
                    (#[trigger] self.documents@[j]).title@,
                ) by {
                    if j < i {
                        let w = choose|w: int|
                            0 <= w < cpre.docs.len() && (#[trigger] cpre.docs[w]).title
                                == self.documents@[j].title@;
                        assert(cat@.docs[w].title == self.documents@[j].title@);
                    } else {
                        if has_doc_title(cpre.docs, self.documents@[i as int].title@) {
                            let w = choose|w: int|
                                0 <= w < cpre.docs.len() && (#[trigger] cpre.docs[w]).title
                                    == self.documents@[i as int].title@;
                            assert(cat@.docs[w].title == self.documents@[i as int].title@);
                        } else {
                            assert(cat@.docs[cpre.docs.len() as int].title
                                == self.documents@[i as int].title@);
                        }
                    }
                }
            }
            i = i + 1;
        }
        proof {
            assert(self.documents@.skip(n as int) =~= Seq::<Document>::empty());
        }
        Ok(())
    }
}

/// Builds a document record field by field; text fields other than the
/// DOI are normalized to lowercase as they are set.
#[derive(Debug)]
pub struct DocumentBuilder {
    title: String,
    author: String,
    publication: String,
    volume: u16,
    year: u16,
    tags: String,
    doi: String,
    path: String,
}

/// The mathematical value of a builder in progress.
pub ghost struct BuilderView {
    pub title: Seq<char>,
    pub author: Seq<char>,
    pub publication: Seq<char>,
    pub volume: u16,
    pub year: u16,
    pub tags: Seq<char>,
    pub doi: Seq<char>,
    pub path: Seq<char>,
}

impl View for DocumentBuilder {
    type V = BuilderView;

    closed spec fn view(&self) -> BuilderView {
        BuilderView {
            title: self.title@,
            author: self.author@,
            publication: self.publication@,
            volume: self.volume,
            year: self.year,
            tags: self.tags@,
            doi: self.doi@,
            path: self.path@,
        }
    }
}

impl DocumentBuilder {
    /// Starts a record from its title, lowercased, and its source path.
    pub fn new(title: &str, path: &str) -> (r: DocumentBuilder)
        ensures
            r@.title == lower_of(title@),
            r@.author =~= Seq::<char>::empty(),
            r@.publication =~= Seq::<char>::empty(),
            r@.volume == 0,
            r@.year == 0,
            r@.tags =~= Seq::<char>::empty(),
            r@.doi =~= Seq::<char>::empty(),
            r@.path == path@,
    {
        DocumentBuilder {
            title: to_lower(title),
            author: String::new(),
            publication: String::new(),
            volume: 0,
            year: 0,
            tags: String::new(),
            doi: String::new(),
            path: path.to_owned(),
        }
    }

    /// Sets the author, lowercased.
    pub fn author(self, author: &str) -> (r: DocumentBuilder)
        ensures
            r@ == (BuilderView { author: lower_of(author@), ..self@ }),
    {
        DocumentBuilder { author: to_lower(author), ..self }
    }

    /// Sets the publication, lowercased.
    pub fn publication(self, publication: &str) -> (r: DocumentBuilder)
        ensures
            r@ == (BuilderView { publication: lower_of(publication@), ..self@ }),
    {
        DocumentBuilder { publication: to_lower(publication), ..self }
    }

    /// Sets the volume.
    pub fn volume(self, volume: u16) -> (r: DocumentBuilder)
        ensures
            r@ == (BuilderView { volume: volume, ..self@ }),
    {
        DocumentBuilder { volume, ..self }
    }

    /// Sets the year.
    pub fn year(self, year: u16) -> (r: DocumentBuilder)
        ensures
            r@ == (BuilderView { year: year, ..self@ }),
    {
        DocumentBuilder { year, ..self }
    }

    /// Sets the comma-separated tag string, lowercased.
    pub fn tags(self, tags: &str) -> (r: DocumentBuilder)
        ensures
            r@ == (BuilderView { tags: lower_of(tags@), ..self@ }),
    {
        DocumentBuilder { tags: to_lower(tags), ..self }
    }

    /// Sets the DOI as given.
    pub fn doi(self, doi: &str) -> (r: DocumentBuilder)
        ensures
            r@ == (BuilderView { doi: doi@, ..self@ }),
    {
        DocumentBuilder { doi: doi.to_owned(), ..self }
    }

    /// Replaces the source path.
    pub fn path(self, path: &str) -> (r: DocumentBuilder)
        ensures
            r@ == (BuilderView { path: path@, ..self@ }),
    {
        DocumentBuilder { path: path.to_owned(), ..self }
    }

    /// Finishes the record; the source path must name an existing PDF
    /// file, and whether a file exists there is the caller's finding.
    pub fn build(self, path_is_file: bool) -> (r: Result<Document, CatalogError>)
        ensures
            r is Ok <==> path_is_file && has_pdf_extension(self@.path),
            r matches Ok(d) ==> d.id == None::<u32> && d.title@ == self@.title && d.author@
                == self@.author && d.year == self@.year && d.publication@ == self@.publication
                && d.volume == self@.volume && d.tags@ == self@.tags && d.doi@ == self@.doi
                && d.path@ == self@.path,
            r matches Err(e) ==> e == CatalogError::InvalidSource,
    {
        if !path_is_file || !has_pdf_ext(self.path.as_str()) {
            return Err(CatalogError::InvalidSource);
        }
        Ok(
            Document {
                id: None,
                title: self.title,
                author: self.author,
                year: self.year,
                publication: self.publication,
                volume: self.volume,
                tags: self.tags,
                doi: self.doi,
                path: self.path,
            },
        )
    }
}

} // verus!
