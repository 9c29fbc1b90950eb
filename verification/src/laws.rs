//! The catalog's laws: what holds of tag insertion, of document
//! insertion's tag auto-creation, and of the consistency synchronizer's
//! rename and delete passes, stated over the same spec functions the
//! operations' contracts use.

use crate::catalog::CatalogView;
use crate::catalog::add_missing_tags;
use crate::catalog::has_tag_value;
use crate::catalog::tag_step;
use crate::document::DocView;
use crate::document::rename_docs;
use crate::document::scrub_docs;
use crate::tag::TagView;
use crate::text::canonical_tags;
use crate::text::contains_sub;
use crate::text::neq_filter;
use crate::text::replace_tokens;
use crate::text::token_list;
use crate::text::trimmed;
use vstd::prelude::*;

verus! {

/// Inserting a tag value twice is idempotent: whatever rows the two
/// calls return, the second call returns the same id as the first and
/// leaves the catalog exactly as the first call left it.  The premises
/// are the insert operation's own contract, once for each call.
pub proof fn law_tag_insert_idempotent(
    c0: CatalogView,
    c1: CatalogView,
    c2: CatalogView,
    t1: TagView,
    t2: TagView,
    v: Seq<char>,
)
    requires
        c0.wf(),
        c1.wf(),
        t1.value == v,
        if has_tag_value(c0.tags, v) {
            c1 == c0 && c0.tags.contains(t1)
        } else {
            t1.id == c0.next_tag_id && c1.tags == c0.tags.push(t1) && c1.next_tag_id
                == c0.next_tag_id + 1
        },
        t2.value == v,
        if has_tag_value(c1.tags, v) {
            c2 == c1 && c1.tags.contains(t2)
        } else {
            t2.id == c1.next_tag_id && c2.tags == c1.tags.push(t2) && c2.next_tag_id
                == c1.next_tag_id + 1
        },
    ensures
        t2.id == t1.id,
        c2 == c1,
{
    if has_tag_value(c0.tags, v) {
        assert(has_tag_value(c1.tags, v));
    } else {
        assert(c1.tags[c0.tags.len() as int] == t1);
        assert(has_tag_value(c1.tags, v));
    }
    let a = choose|a: int| 0 <= a < c1.tags.len() && #[trigger] c1.tags[a] == t1;
    let b = choose|b: int| 0 <= b < c1.tags.len() && #[trigger] c1.tags[b] == t2;
    if a != b {
        assert(c1.tags[a].value != c1.tags[b].value);
    }
}

/// Inserting a document whose tag string denotes the given tokens leaves
/// every one of them present in the tag table; a token that was already
/// stored keeps its row, and a token that was missing receives a newly
/// assigned id, one not below the old fresh-id counter.
pub proof fn law_insert_creates_missing_tags(tg: Seq<TagView>, nx: int, toks: Seq<Seq<char>>)
    requires
        0 <= nx,
        nx + toks.len() <= u32::MAX,
    ensures
        forall|k: int|
            0 <= k < toks.len() ==> has_tag_value(
                add_missing_tags(tg, nx, toks).0,
                #[trigger] toks[k],
            ),
        forall|v: Seq<char>|
            has_tag_value(tg, v) ==> #[trigger] has_tag_value(add_missing_tags(tg, nx, toks).0, v),
        forall|k: int|
            0 <= k < toks.len() && !has_tag_value(tg, #[trigger] toks[k]) ==> exists|w: int|
                0 <= w < add_missing_tags(tg, nx, toks).0.len() && (#[trigger] add_missing_tags(
                    tg,
                    nx,
                    toks,
                ).0[w]).value == toks[k] && nx <= add_missing_tags(tg, nx, toks).0[w].id,
    decreases toks.len(),
{
    let f = add_missing_tags(tg, nx, toks);
    if toks.len() > 0 {
        let s = tag_step(tg, nx, toks[0]);
        assert(f == add_missing_tags(s.0, s.1, toks.drop_first()));
        law_insert_creates_missing_tags(s.0, s.1, toks.drop_first());
        assert forall|v: Seq<char>| has_tag_value(tg, v) implies #[trigger] has_tag_value(
            s.0,
            v,
        ) by {
            let w = choose|w: int| 0 <= w < tg.len() && (#[trigger] tg[w]).value == v;
            assert(s.0[w].value == v);
        }
        assert(has_tag_value(s.0, toks[0])) by {
            if has_tag_value(tg, toks[0]) {
            } else {
                assert(s.0[tg.len() as int].value == toks[0]);
            }
        }
        assert forall|k: int| 0 <= k < toks.len() implies has_tag_value(
            f.0,
            #[trigger] toks[k],
        ) by {
            if k == 0 {
                assert(has_tag_value(f.0, toks[0]));
            } else {
                assert(toks.drop_first()[k - 1] == toks[k]);
            }
        }
        assert forall|k: int|
            0 <= k < toks.len() && !has_tag_value(tg, #[trigger] toks[k]) implies exists|w: int|
            0 <= w < f.0.len() && (#[trigger] f.0[w]).value == toks[k] && nx <= f.0[w].id by {
            if k == 0 {
                assert(s.0[tg.len() as int].value == toks[0] && s.0[tg.len() as int].id == nx
                    as u32);
                lemma_value_row_with_id(s.0, s.1, toks.drop_first(), toks[0], tg.len() as int);
                let w3 = choose|w3: int|
                    0 <= w3 < f.0.len() && (#[trigger] f.0[w3]).value == toks[0] && f.0[w3].id
                        == s.0[tg.len() as int].id;
                assert(nx <= f.0[w3].id);
            } else {
                assert(toks.drop_first()[k - 1] == toks[k]);
                if has_tag_value(s.0, toks[k]) {
                    let w0 = choose|w0: int|
                        0 <= w0 < s.0.len() && (#[trigger] s.0[w0]).value == toks[k];
                    if w0 < tg.len() {
                        assert(tg[w0].value == toks[k]);
                        assert(false);
                    } else {
                        assert(s.0[w0].id == nx as u32);
                        lemma_value_row_with_id(s.0, s.1, toks.drop_first(), toks[k], w0);
                        let w3 = choose|w3: int|
                            0 <= w3 < f.0.len() && (#[trigger] f.0[w3]).value == toks[k]
                                && f.0[w3].id == s.0[w0].id;
                        assert(nx <= f.0[w3].id);
                    }
                } else {
                    let w2 = choose|w2: int|
                        0 <= w2 < f.0.len() && (#[trigger] f.0[w2]).value == toks[k] && s.1
                            <= f.0[w2].id;
                    assert(nx <= f.0[w2].id);
                }
            }
        }
    }
}

/// A row present before the auto-creation fold survives it with its id.
proof fn lemma_value_row_with_id(
    tg: Seq<TagView>,
    nx: int,
    toks: Seq<Seq<char>>,
    v: Seq<char>,
    w: int,
)
    requires
        0 <= w < tg.len(),
        tg[w].value == v,
    ensures
        exists|w3: int|
            0 <= w3 < add_missing_tags(tg, nx, toks).0.len() && (#[trigger] add_missing_tags(
                tg,
                nx,
                toks,
            ).0[w3]).value == v && add_missing_tags(tg, nx, toks).0[w3].id == tg[w].id,
    decreases toks.len(),
{
    if toks.len() == 0 {
        assert(add_missing_tags(tg, nx, toks).0[w].value == v && add_missing_tags(
            tg,
            nx,
            toks,
        ).0[w].id == tg[w].id);
    } else {
        let s = tag_step(tg, nx, toks[0]);
        assert(add_missing_tags(tg, nx, toks) == add_missing_tags(s.0, s.1, toks.drop_first()));
        assert(s.0[w] == tg[w]);
        lemma_value_row_with_id(s.0, s.1, toks.drop_first(), v, w);
    }
}

/// After a tag rename, a document's tokens contain the new value exactly
/// when its old tokens contained the old or the new value, and the old
/// value is gone from every document.
pub proof fn law_rename_token_membership(ts: Seq<Seq<char>>, o: Seq<char>, n: Seq<char>)
    requires
        o != n,
    ensures
        replace_tokens(ts, o, n).contains(n) <==> ts.contains(o) || ts.contains(n),
        !replace_tokens(ts, o, n).contains(o),
{
    let rt = replace_tokens(ts, o, n);
    if ts.contains(o) {
        let w = choose|w: int| 0 <= w < ts.len() && ts[w] == o;
        assert(rt[w] == n);
        assert(rt.contains(n));
    }
    if ts.contains(n) {
        let w = choose|w: int| 0 <= w < ts.len() && ts[w] == n;
        assert(rt[w] == n);
        assert(rt.contains(n));
    }
    if rt.contains(n) {
        let w = choose|w: int| 0 <= w < rt.len() && rt[w] == n;
        if ts[w] == o {
            assert(ts.contains(o));
        } else {
            assert(ts[w] == n);
            assert(ts.contains(n));
        }
    }
    assert forall|w: int| 0 <= w < rt.len() implies #[trigger] rt[w] != o by {
        if ts[w] == o {
            assert(rt[w] == n);
        } else {
            assert(rt[w] == ts[w]);
        }
    }
    assert(!rt.contains(o)) by {
        if rt.contains(o) {
            let w = choose|w: int| 0 <= w < rt.len() && rt[w] == o;
        }
    }
}

/// After renaming tag `o` to `n`, the documents whose tag string the
/// substring filter matches for `n` are exactly those whose tokens
/// contained `o` before — provided `n` occurred nowhere as a substring
/// before the rename (a fragment that already hit inside some tag string,
/// such as one inside a longer tag value, is excluded) — and no document's
/// tokens contain `o` any longer.
pub proof fn law_rename_find_by_substring(
    c0: CatalogView,
    c1: CatalogView,
    o: Seq<char>,
    n: Seq<char>,
)
    requires
        c0.wf(),
        o.len() > 0,
        trimmed(n) == n,
        n.len() > 0,
        !n.contains(','),
        o != n,
        forall|i: int|
            0 <= i < c0.docs.len() ==> !contains_sub((#[trigger] c0.docs[i]).tags, n),
        c1.docs == rename_docs(c0.docs, o, n),
    ensures
        forall|i: int|
            0 <= i < c1.docs.len() ==> (contains_sub((#[trigger] c1.docs[i]).tags, n)
                <==> token_list(c0.docs[i].tags).contains(o)),
        forall|i: int|
            0 <= i < c1.docs.len() ==> !token_list((#[trigger] c1.docs[i]).tags).contains(o),
{
    assert forall|i: int| 0 <= i < c1.docs.len() implies (contains_sub(
        (#[trigger] c1.docs[i]).tags,
        n,
    ) <==> token_list(c0.docs[i].tags).contains(o)) && !token_list(c1.docs[i].tags).contains(
        o,
    ) by {
        assert(canonical_tags(c0.docs[i].tags));
        assert(c1.docs[i].tags == join_comma_of_replace(c0.docs[i].tags, o, n));
        lemma_rename_doc_match(c0.docs[i].tags, o, n);
    }
}

/// The rewritten tag string of one document.
spec fn join_comma_of_replace(s: Seq<char>, o: Seq<char>, n: Seq<char>) -> Seq<char> {
    crate::text::join_comma(crate::text::replace_list(s, o, n))
}

/// A fragment contained in one trimmed piece is contained in the whole
/// string.
proof fn lemma_piece_leak(s: Seq<char>, w: int, n: Seq<char>)
    requires
        0 <= w < crate::text::pieces(s).len(),
        contains_sub(trimmed(crate::text::pieces(s)[w]), n),
    ensures
        contains_sub(s, n),
{
    lemma_trimmed_substring(crate::text::pieces(s)[w]);
    crate::text::lemma_contains_trans(
        crate::text::pieces(s)[w],
        trimmed(crate::text::pieces(s)[w]),
        n,
    );
    crate::text::lemma_join_elem_substring(crate::text::pieces(s), w);
    crate::text::lemma_join_pieces(s);
    crate::text::lemma_contains_trans(s, crate::text::pieces(s)[w], n);
}

/// The one-document core of the rename law.
proof fn lemma_rename_doc_match(s: Seq<char>, o: Seq<char>, n: Seq<char>)
    requires
        canonical_tags(s),
        o.len() > 0,
        trimmed(n) == n,
        n.len() > 0,
        !n.contains(','),
        o != n,
        !contains_sub(s, n),
    ensures
        contains_sub(join_comma_of_replace(s, o, n), n) <==> token_list(s).contains(o),
        !token_list(join_comma_of_replace(s, o, n)).contains(o),
{
    lemma_rename_doc_pos(s, o, n);
    lemma_rename_doc_neg(s, o, n);
}

/// Renamed tokens reach the joined string, and the old value is gone.
proof fn lemma_rename_doc_pos(s: Seq<char>, o: Seq<char>, n: Seq<char>)
    requires
        canonical_tags(s),
        o.len() > 0,
        trimmed(n) == n,
        n.len() > 0,
        !n.contains(','),
        o != n,
    ensures
        token_list(s).contains(o) ==> contains_sub(join_comma_of_replace(s, o, n), n),
        !token_list(join_comma_of_replace(s, o, n)).contains(o),
{
    crate::text::lemma_rename_tokens(s, o, n);
    let s1 = join_comma_of_replace(s, o, n);
    let tl0 = token_list(s);
    let tl1 = token_list(s1);
    assert(tl1 == replace_tokens(tl0, o, n));
    law_rename_token_membership(tl0, o, n);
    assert(!tl1.contains(o));
    if tl0.contains(o) {
        assert(tl1.contains(n));
        assert(canonical_tags(s1));
        crate::text::lemma_token_substring(s1, n);
    }
}

/// A trimmed piece equal to a non-empty value is a token of the string.
proof fn lemma_piece_token(s: Seq<char>, w: int, o: Seq<char>)
    requires
        canonical_tags(s),
        0 <= w < crate::text::pieces(s).len(),
        trimmed(crate::text::pieces(s)[w]) == o,
        o.len() > 0,
    ensures
        token_list(s).contains(o),
{
    if token_list(s).len() == 0 {
        crate::text::lemma_canonical_empty(s);
        assert(crate::text::pieces(s) =~~= seq![Seq::<char>::empty()]);
        assert(trimmed(Seq::<char>::empty()) == Seq::<char>::empty());
        assert(false);
    } else {
        crate::text::lemma_canonical_pieces(s);
        crate::text::lemma_token_list_entries(s);
        assert(token_list(s)[w] == o);
    }
}

/// A fragment hit in the rewritten string comes from a renamed token.
#[verifier::spinoff_prover]
proof fn lemma_rename_doc_neg(s: Seq<char>, o: Seq<char>, n: Seq<char>)
    requires
        canonical_tags(s),
        o.len() > 0,
        trimmed(n) == n,
        n.len() > 0,
        !n.contains(','),
        o != n,
        !contains_sub(s, n),
    ensures
        contains_sub(join_comma_of_replace(s, o, n), n) ==> token_list(s).contains(o),
{
    if contains_sub(join_comma_of_replace(s, o, n), n) {
        let tl0 = token_list(s);
        // the match lies inside one rewritten piece
        let rl = crate::text::replace_list(s, o, n);
        crate::text::lemma_pieces_len(s);
        assert(rl.len() >= 1);
        crate::text::lemma_join_pieces(s);
        lemma_replace_entries(s, o, n);
        crate::text::lemma_contains_join_decompose(rl, n);
        let w = choose|w: int| 0 <= w < rl.len() && contains_sub(#[trigger] rl[w], n);
        if rl[w] == n {
            if trimmed(crate::text::pieces(s)[w]) == o {
                lemma_piece_token(s, w, o);
            } else {
                // the entry was already n, so n occurred in s before
                assert(trimmed(crate::text::pieces(s)[w]) == n);
                lemma_piece_leak(s, w, n);
                assert(false);
            }
        } else {
            // n occurs inside an unchanged trimmed piece
            assert(rl[w] == trimmed(crate::text::pieces(s)[w]));
            lemma_piece_leak(s, w, n);
            assert(false);
        }
    }
}

/// Each rewritten entry is the new value or the trimmed old piece.
proof fn lemma_replace_entries(s: Seq<char>, o: Seq<char>, n: Seq<char>)
    ensures
        forall|w: int|
            0 <= w < crate::text::replace_list(s, o, n).len() ==> #[trigger] crate::text::replace_list(
                s,
                o,
                n,
            )[w] == if trimmed(crate::text::pieces(s)[w]) == o {
                n
            } else {
                trimmed(crate::text::pieces(s)[w])
            },
{
}

/// A trimmed string occurs in the string it came from.
proof fn lemma_trimmed_substring(s: Seq<char>)
    ensures
        contains_sub(s, trimmed(s)),
        contains_sub(trimmed(s), trimmed(s)),
{
    lemma_trim_parts(s);
    let t = trimmed(s);
    assert(t.subrange(0, t.len() as int) =~= t);
    assert(contains_sub(t, t)) by {
        assert(t.subrange(0, 0 + t.len() as int) == t);
    }
}

/// The trimmed string is a contiguous part of the untrimmed one.
proof fn lemma_trim_parts(s: Seq<char>)
    ensures
        contains_sub(s, trimmed(s)),
{
    lemma_trim_front_suffix(s);
    let tf = crate::text::trim_front(s);
    lemma_trim_back_prefix(tf);
    let t = trimmed(s);
    let a = s.len() - tf.len();
    assert(tf == s.subrange(a, s.len() as int));
    assert(t == tf.subrange(0, t.len() as int));
    assert forall|k: int| 0 <= k < t.len() implies s[a + k] == t[k] by {
        assert(tf[k] == t[k]);
        assert(tf[k] == s[a + k]);
    }
    assert(s.subrange(a, a + t.len() as int) =~= t);
}

proof fn lemma_trim_front_suffix(s: Seq<char>)
    ensures
        crate::text::trim_front(s).len() <= s.len(),
        crate::text::trim_front(s) == s.subrange(
            s.len() - crate::text::trim_front(s).len(),
            s.len() as int,
        ),
    decreases s.len(),
{
    if s.len() > 0 && crate::text::is_space(s[0]) {
        lemma_trim_front_suffix(s.drop_first());
        assert(s.drop_first().subrange(
            s.drop_first().len() - crate::text::trim_front(s).len(),
            s.drop_first().len() as int,
        ) =~= s.subrange(s.len() - crate::text::trim_front(s).len(), s.len() as int));
    } else {
        assert(s.subrange(0, s.len() as int) =~= s);
    }
}

proof fn lemma_trim_back_prefix(s: Seq<char>)
    ensures
        crate::text::trim_back(s).len() <= s.len(),
        crate::text::trim_back(s) == s.subrange(0, crate::text::trim_back(s).len() as int),
    decreases s.len(),
{
    if s.len() > 0 && crate::text::is_space(s.last()) {
        lemma_trim_back_prefix(s.drop_last());
        assert(s.drop_last().subrange(0, crate::text::trim_back(s).len() as int) =~= s.subrange(
            0,
            crate::text::trim_back(s).len() as int,
        ));
    } else {
        assert(s.subrange(0, s.len() as int) =~= s);
    }
}

/// After a tag deletion, no document's tokens contain the value, the
/// other tokens of each document are preserved in order, and each tag
/// string stays canonical: comma-joined with no empty tokens.
pub proof fn law_delete_scrubs_tokens(docs: Seq<DocView>, v: Seq<char>)
    requires
        forall|i: int| 0 <= i < docs.len() ==> canonical_tags((#[trigger] docs[i]).tags),
    ensures
        forall|i: int|
            0 <= i < docs.len() ==> token_list((#[trigger] scrub_docs(docs, v)[i]).tags)
                == neq_filter(token_list(docs[i].tags), v),
        forall|i: int|
            0 <= i < docs.len() ==> !token_list(
                (#[trigger] scrub_docs(docs, v)[i]).tags,
            ).contains(v),
        forall|i: int|
            0 <= i < docs.len() ==> canonical_tags((#[trigger] scrub_docs(docs, v)[i]).tags),
{
    assert forall|i: int| 0 <= i < docs.len() implies token_list(
        (#[trigger] scrub_docs(docs, v)[i]).tags,
    ) == neq_filter(token_list(docs[i].tags), v) && !token_list(
        scrub_docs(docs, v)[i].tags,
    ).contains(v) && canonical_tags(scrub_docs(docs, v)[i].tags) by {
        crate::text::lemma_remove_tokens(docs[i].tags, v);
        crate::text::lemma_neq_filter_pred(token_list(docs[i].tags), v);
        let nt = token_list(scrub_docs(docs, v)[i].tags);
        if nt.contains(v) {
            let w = choose|w: int| 0 <= w < nt.len() && nt[w] == v;
        }
    }
}

} // verus!
