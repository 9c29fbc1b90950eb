//! Character-level text operations for the denormalized tag string:
//! whitespace trimming, splitting on commas, joining with commas, and
//! substring search, together with the spec functions that describe them.

use vstd::prelude::*;
use vstd::string::*;

verus! {

/// The result of `str::to_lowercase`, which depends on the input
/// characters alone.
pub uninterp spec fn lower_of(s: Seq<char>) -> Seq<char>;

/// A Unicode white-space character, as listed for the White_Space property.
pub open spec fn is_space(c: char) -> bool {
    let i = c as int;
    (0x09 <= i && i <= 0x0D) || i == 0x20 || i == 0x85 || i == 0xA0 || i == 0x1680 || (0x2000 <= i
        && i <= 0x200A) || i == 0x2028 || i == 0x2029 || i == 0x202F || i == 0x205F || i == 0x3000
}

fn is_space_char(c: char) -> (b: bool)
    ensures
        b == is_space(c),
{
    let i = c as u32;
    (0x09 <= i && i <= 0x0D) || i == 0x20 || i == 0x85 || i == 0xA0 || i == 0x1680 || (0x2000 <= i
        && i <= 0x200A) || i == 0x2028 || i == 0x2029 || i == 0x202F || i == 0x205F || i == 0x3000
}

/// The sequence with leading white space removed.
pub open spec fn trim_front(s: Seq<char>) -> Seq<char>
    decreases s.len(),
{
    if s.len() > 0 && is_space(s[0]) {
        trim_front(s.drop_first())
    } else {
        s
    }
}

/// The sequence with trailing white space removed.
pub open spec fn trim_back(s: Seq<char>) -> Seq<char>
    decreases s.len(),
{
    if s.len() > 0 && is_space(s.last()) {
        trim_back(s.drop_last())
    } else {
        s
    }
}

/// The sequence with both leading and trailing white space removed.
pub open spec fn trimmed(s: Seq<char>) -> Seq<char> {
    trim_back(trim_front(s))
}

proof fn lemma_trim_front_skip(s: Seq<char>, k: int)
    requires
        0 <= k <= s.len(),
        forall|j: int| 0 <= j < k ==> is_space(s[j]),
        k == s.len() || !is_space(s[k]),
    ensures
        trim_front(s) == s.subrange(k, s.len() as int),
    decreases k,
{
    if k == 0 {
        assert(s.subrange(0, s.len() as int) =~= s);
    } else {
        let t = s.drop_first();
        assert(forall|j: int| 0 <= j < k - 1 ==> is_space(t[j]));
        lemma_trim_front_skip(t, k - 1);
        assert(t.subrange(k - 1, t.len() as int) =~= s.subrange(k, s.len() as int));
    }
}

proof fn lemma_trim_back_keep(s: Seq<char>, k: int)
    requires
        0 <= k <= s.len(),
        forall|j: int| k <= j < s.len() ==> is_space(s[j]),
        k == 0 || !is_space(s[k - 1]),
    ensures
        trim_back(s) == s.subrange(0, k),
    decreases s.len() - k,
{
    if k == s.len() {
        assert(s.subrange(0, k) =~= s);
    } else {
        let t = s.drop_last();
        assert(is_space(s.last()));
        lemma_trim_back_keep(t, k);
    }
}

/// The pieces of `s` between commas, in order.  A string with no comma is
/// one piece; every comma separates two pieces, so there is always at least
/// one piece and empty pieces are kept.
pub open spec fn pieces(s: Seq<char>) -> Seq<Seq<char>>
    decreases s.len(),
{
    if s.len() == 0 {
        seq![Seq::<char>::empty()]
    } else {
        let rest = pieces(s.drop_last());
        if s.last() == ',' {
            rest.push(Seq::<char>::empty())
        } else {
            rest.update(rest.len() - 1, rest.last().push(s.last()))
        }
    }
}

/// The pieces joined back together with one comma between each pair.
pub open spec fn join_comma(ts: Seq<Seq<char>>) -> Seq<char>
    decreases ts.len(),
{
    if ts.len() == 0 {
        Seq::<char>::empty()
    } else if ts.len() == 1 {
        ts[0]
    } else {
        join_comma(ts.drop_last()) + seq![','] + ts.last()
    }
}

pub proof fn lemma_pieces_len(s: Seq<char>)
    ensures
        1 <= pieces(s).len() <= s.len() + 1,
    decreases s.len(),
{
    if s.len() > 0 {
        lemma_pieces_len(s.drop_last());
    }
}

pub proof fn lemma_pieces_no_comma(s: Seq<char>)
    ensures
        forall|i: int| 0 <= i < pieces(s).len() ==> !(#[trigger] pieces(s)[i]).contains(','),
    decreases s.len(),
{
    if s.len() == 0 {
        assert forall|i: int| 0 <= i < pieces(s).len() implies !(#[trigger] pieces(s)[i]).contains(
            ',',
        ) by {
            assert(forall|j: int| 0 <= j < pieces(s)[i].len() ==> pieces(s)[i][j] != ',');
        }
    } else {
        lemma_pieces_no_comma(s.drop_last());
        lemma_pieces_len(s.drop_last());
        let rest = pieces(s.drop_last());
        if s.last() == ',' {
            assert(!Seq::<char>::empty().contains(','));
        } else {
            let ext = rest.last().push(s.last());
            assert forall|j: int| 0 <= j < ext.len() implies ext[j] != ',' by {
                if j < ext.len() - 1 {
                    assert(!rest[rest.len() - 1].contains(','));
                }
            }
            assert(!ext.contains(','));
        }
    }
}

proof fn lemma_join_push_char(ts: Seq<Seq<char>>, c: char)
    requires
        ts.len() >= 1,
    ensures
        join_comma(ts.update(ts.len() - 1, ts.last().push(c))) == join_comma(ts).push(c),
{
    let u = ts.update(ts.len() - 1, ts.last().push(c));
    if ts.len() == 1 {
        assert(join_comma(u) =~= join_comma(ts).push(c));
    } else {
        assert(u.drop_last() =~= ts.drop_last());
        assert(join_comma(u) == join_comma(u.drop_last()) + seq![','] + u.last());
        assert(join_comma(u) =~= join_comma(ts).push(c));
    }
}

pub proof fn lemma_join_pieces(s: Seq<char>)
    ensures
        join_comma(pieces(s)) == s,
    decreases s.len(),
{
    if s.len() > 0 {
        lemma_join_pieces(s.drop_last());
        lemma_pieces_len(s.drop_last());
        let rest = pieces(s.drop_last());
        if s.last() == ',' {
            assert(join_comma(rest.push(Seq::<char>::empty())) == join_comma(
                rest.push(Seq::<char>::empty()).drop_last(),
            ) + seq![','] + Seq::<char>::empty());
            assert(rest.push(Seq::<char>::empty()).drop_last() =~= rest);
            assert(join_comma(pieces(s)) =~= s);
        } else {
            lemma_join_push_char(rest, s.last());
            assert(join_comma(pieces(s)) =~= s);
        }
    }
}

/// A comma-free string splits into itself alone.
proof fn lemma_pieces_single(s: Seq<char>)
    requires
        !s.contains(','),
    ensures
        pieces(s) =~~= seq![s],
    decreases s.len(),
{
    if s.len() > 0 {
        assert(s.last() != ',') by {
            assert(s[s.len() - 1] == s.last());
        }
        assert(!s.drop_last().contains(',')) by {
            assert(forall|i: int|
                0 <= i < s.drop_last().len() ==> s.drop_last()[i] == s[i] && s[i] != ',');
        }
        lemma_pieces_single(s.drop_last());
        assert(pieces(s) =~~= seq![s]);
    }
}

/// Appending a comma and then a comma-free piece appends one piece.
proof fn lemma_pieces_append(x: Seq<char>, t: Seq<char>)
    requires
        !t.contains(','),
    ensures
        pieces(x + seq![','] + t) =~~= pieces(x).push(t),
    decreases t.len(),
{
    lemma_pieces_len(x);
    if t.len() == 0 {
        let w = x + seq![','] + t;
        assert(w =~= x.push(','));
        assert(w.drop_last() =~= x);
    } else {
        assert(t.last() != ',') by {
            assert(t[t.len() - 1] == t.last());
        }
        assert(!t.drop_last().contains(',')) by {
            assert(forall|i: int|
                0 <= i < t.drop_last().len() ==> t.drop_last()[i] == t[i] && t[i] != ',');
        }
        lemma_pieces_append(x, t.drop_last());
        let w = x + seq![','] + t;
        assert(w.drop_last() =~= x + seq![','] + t.drop_last());
        assert(w.len() > 0 && w.last() == t.last());
        let rest = pieces(x + seq![','] + t.drop_last());
        lemma_pieces_len(x + seq![','] + t.drop_last());
        assert(rest =~~= pieces(x).push(t.drop_last()));
        assert(rest.last() == t.drop_last());
        assert(rest.last().push(t.last()) =~= t);
        assert(pieces(w) =~~= rest.update(rest.len() - 1, rest.last().push(t.last())));
        assert(pieces(w) =~~= pieces(x).push(t));
    }
}

/// Splitting a joined list of comma-free pieces gives the list back.
pub proof fn lemma_pieces_join(ts: Seq<Seq<char>>)
    requires
        ts.len() >= 1,
        forall|i: int| 0 <= i < ts.len() ==> !(#[trigger] ts[i]).contains(','),
    ensures
        pieces(join_comma(ts)) =~~= ts,
    decreases ts.len(),
{
    if ts.len() == 1 {
        lemma_pieces_single(ts[0]);
        assert(join_comma(ts) == ts[0]);
    } else {
        lemma_pieces_join(ts.drop_last());
        lemma_pieces_append(join_comma(ts.drop_last()), ts.last());
        assert(pieces(join_comma(ts)) =~~= ts.drop_last().push(ts.last()));
        assert(ts.drop_last().push(ts.last()) =~~= ts);
    }
}

/// Removes leading and trailing white space, as `str::trim` does.
pub fn trimmed_str<'a>(s: &'a str) -> (r: &'a str)
    ensures
        r@ == trimmed(s@),
{
    let n = s.unicode_len();
    let mut start: usize = 0;
    while start < n && is_space_char(s.get_char(start))
        invariant
            0 <= start <= n,
            n == s@.len(),
            forall|j: int| 0 <= j < start ==> is_space(s@[j]),
        decreases n - start,
    {
        start = start + 1;
    }
    proof {
        lemma_trim_front_skip(s@, start as int);
    }
    let mut end: usize = n;
    while end > start && is_space_char(s.get_char(end - 1))
        invariant
            start <= end <= n,
            n == s@.len(),
            forall|j: int| end <= j < n ==> is_space(s@[j]),
        decreases end,
    {
        end = end - 1;
    }
    proof {
        let f = s@.subrange(start as int, n as int);
        assert(forall|j: int| end - start <= j < f.len() ==> is_space(f[j]));
        lemma_trim_back_keep(f, end - start);
        assert(f.subrange(0, end - start) =~= s@.subrange(start as int, end as int));
    }
    s.substring_char(start, end)
}

/// Relies on str::to_lowercase: the result is the Unicode lowercase
/// equivalent of the input, a function of the input characters alone;
/// lowercasing an empty string gives an empty string.
#[verifier::external_body]
pub(crate) fn to_lower(s: &str) -> (r: String)
    ensures
        r@ == lower_of(s@),
        s@.len() == 0 ==> r@.len() == 0,
{
    s.to_lowercase()
}

/// Every piece of `s`, trimmed.
pub open spec fn trim_map(ps: Seq<Seq<char>>) -> Seq<Seq<char>> {
    ps.map_values(|p: Seq<char>| trimmed(p))
}

/// The non-empty entries of a list, in order.
pub open spec fn nonempty_filter(ts: Seq<Seq<char>>) -> Seq<Seq<char>> {
    ts.filter(|t: Seq<char>| t.len() > 0)
}

pub proof fn lemma_nonempty_filter_push(s: Seq<Seq<char>>, x: Seq<char>)
    ensures
        nonempty_filter(s.push(x)) == if x.len() > 0 {
            nonempty_filter(s).push(x)
        } else {
            nonempty_filter(s)
        },
{
    reveal(Seq::filter);
    assert((s.push(x)).drop_last() =~= s);
}

/// The tag tokens of a denormalized tag string: each comma-separated piece
/// trimmed, with empty tokens dropped.
pub open spec fn token_list(s: Seq<char>) -> Seq<Seq<char>> {
    nonempty_filter(trim_map(pieces(s)))
}

/// Splits a string on commas, keeping empty pieces.
pub fn split_pieces(s: &str) -> (r: Vec<String>)
    ensures
        r.deep_view() == pieces(s@),
{
    let n = s.unicode_len();
    let mut r: Vec<String> = Vec::new();
    let mut cur: usize = 0;
    let mut i: usize = 0;
    while i < n
        invariant
            0 <= cur <= i <= n,
            n == s@.len(),
            pieces(s@.subrange(0, i as int)) =~~= r.deep_view().push(
                s@.subrange(cur as int, i as int),
            ),
        decreases n - i,
    {
        let ghost pre = s@.subrange(0, i as int);
        let ghost part = s@.subrange(cur as int, i as int);
        let ghost rd = r.deep_view();
        proof {
            assert(s@.subrange(0, i + 1) =~= pre.push(s@[i as int]));
        }
        proof {
            assert((pre.push(s@[i as int])).drop_last() =~= pre);
        }
        let c = s.get_char(i);
        if c == ',' {
            let piece = s.substring_char(cur, i);
            r.push(piece.to_owned());
            cur = i + 1;
            proof {
                assert(pieces(pre.push(c)) =~~= pieces(pre).push(Seq::<char>::empty()));
                assert(r.deep_view() =~~= rd.push(part));
                assert(s@.subrange(cur as int, i + 1) =~= Seq::<char>::empty());
                assert(pieces(s@.subrange(0, i + 1)) =~~= r.deep_view().push(
                    s@.subrange(cur as int, i + 1),
                ));
            }
        } else {
            proof {
                let old_ps = pieces(pre);
                assert(pieces(pre.push(c)) =~~= old_ps.update(
                    old_ps.len() - 1,
                    old_ps.last().push(c),
                ));
                assert(old_ps =~~= rd.push(part));
                assert(old_ps.last() == part);
                assert(part.push(c) =~= s@.subrange(cur as int, i + 1));
                assert(old_ps.update(old_ps.len() - 1, old_ps.last().push(c)) =~~= rd.push(
                    part.push(c),
                ));
                assert(pieces(s@.subrange(0, i + 1)) =~~= r.deep_view().push(
                    s@.subrange(cur as int, i + 1),
                ));
            }
        }
        i = i + 1;
    }
    let ghost rd = r.deep_view();
    let last = s.substring_char(cur, n);
    r.push(last.to_owned());
    proof {
        assert(s@.subrange(0, n as int) =~= s@);
        assert(r.deep_view() =~~= rd.push(s@.subrange(cur as int, n as int)));
        assert(r.deep_view() =~~= pieces(s@));
    }
    r
}

/// Joins a list of strings with one comma between each pair.
pub fn join_strings(v: &Vec<String>) -> (r: String)
    ensures
        r@ == join_comma(v.deep_view()),
{
    let mut r = String::new();
    let mut i: usize = 0;
    while i < v.len()
        invariant
            0 <= i <= v.len(),
            r@ =~= join_comma(v.deep_view().subrange(0, i as int)),
        decreases v.len() - i,
    {
        proof {
            let pre = v.deep_view().subrange(0, i as int);
            let pre1 = v.deep_view().subrange(0, i + 1);
            assert(pre1.drop_last() =~= pre);
            assert(pre1.last() == v.deep_view()[i as int]);
        }
        if i > 0 {
            r.append(",");
            proof {
                reveal_strlit(",");
            }
        }
        r.append(v[i].as_str());
        i = i + 1;
    }
    proof {
        assert(v.deep_view().subrange(0, v.len() as int) =~= v.deep_view());
    }
    r
}

/// The tag tokens of a denormalized tag string, as owned strings.
pub fn tokens_of(s: &str) -> (r: Vec<String>)
    ensures
        r.deep_view() == token_list(s@),
{
    let ps = split_pieces(s);
    let mut r: Vec<String> = Vec::new();
    let mut i: usize = 0;
    while i < ps.len()
        invariant
            0 <= i <= ps.len(),
            ps.deep_view() == pieces(s@),
            r.deep_view() =~~= nonempty_filter(trim_map(pieces(s@).subrange(0, i as int))),
        decreases ps.len() - i,
    {
        let ghost pre = pieces(s@).subrange(0, i as int);
        let ghost rd = r.deep_view();
        proof {
            assert(pieces(s@).subrange(0, i + 1) =~= pre.push(pieces(s@)[i as int]));
            assert(trim_map(pre.push(pieces(s@)[i as int])) =~~= trim_map(pre).push(
                trimmed(pieces(s@)[i as int]),
            ));
            lemma_nonempty_filter_push(trim_map(pre), trimmed(pieces(s@)[i as int]));
        }
        let t = trimmed_str(ps[i].as_str());
        if !t.is_empty() {
            r.push(t.to_owned());
            proof {
                assert(r.deep_view() =~~= rd.push(trimmed(pieces(s@)[i as int])));
            }
        }
        i = i + 1;
    }
    proof {
        assert(pieces(s@).subrange(0, pieces(s@).len() as int) =~= pieces(s@));
    }
    r
}

proof fn lemma_trim_front_head(s: Seq<char>)
    ensures
        trim_front(s).len() > 0 ==> !is_space(trim_front(s)[0]),
    decreases s.len(),
{
    if s.len() > 0 && is_space(s[0]) {
        lemma_trim_front_head(s.drop_first());
    }
}

proof fn lemma_trim_back_last(s: Seq<char>)
    ensures
        trim_back(s).len() > 0 ==> !is_space(trim_back(s).last()),
    decreases s.len(),
{
    if s.len() > 0 && is_space(s.last()) {
        lemma_trim_back_last(s.drop_last());
    }
}

proof fn lemma_trim_back_head(s: Seq<char>)
    ensures
        trim_back(s).len() > 0 ==> s.len() > 0 && trim_back(s)[0] == s[0],
    decreases s.len(),
{
    if s.len() > 0 && is_space(s.last()) {
        lemma_trim_back_head(s.drop_last());
    }
}

/// Trimming an already trimmed string changes nothing.
pub proof fn lemma_trimmed_idempotent(s: Seq<char>)
    ensures
        trimmed(trimmed(s)) == trimmed(s),
{
    let t = trim_front(s);
    let u = trim_back(t);
    lemma_trim_front_head(s);
    lemma_trim_back_last(s);
    lemma_trim_back_head(t);
    lemma_trim_back_last(t);
    if u.len() > 0 {
        assert(u[0] == t[0]);
        assert(!is_space(u[0]));
        assert(trim_front(u) == u);
        assert(!is_space(u.last()));
    }
}

proof fn lemma_trim_front_chars(s: Seq<char>, c: char)
    ensures
        trim_front(s).contains(c) ==> s.contains(c),
    decreases s.len(),
{
    if s.len() > 0 && is_space(s[0]) {
        lemma_trim_front_chars(s.drop_first(), c);
        if trim_front(s).contains(c) {
            let i = choose|i: int| 0 <= i < s.drop_first().len() && s.drop_first()[i] == c;
            assert(s[i + 1] == c);
        }
    }
}

proof fn lemma_trim_back_chars(s: Seq<char>, c: char)
    ensures
        trim_back(s).contains(c) ==> s.contains(c),
    decreases s.len(),
{
    if s.len() > 0 && is_space(s.last()) {
        lemma_trim_back_chars(s.drop_last(), c);
        if trim_back(s).contains(c) {
            let i = choose|i: int| 0 <= i < s.drop_last().len() && s.drop_last()[i] == c;
            assert(s[i] == c);
        }
    }
}

/// Trimming cannot introduce a character that was not there.
pub proof fn lemma_trimmed_chars(s: Seq<char>, c: char)
    ensures
        trimmed(s).contains(c) ==> s.contains(c),
{
    lemma_trim_back_chars(trim_front(s), c);
    lemma_trim_front_chars(s, c);
}

/// The entries of a list other than `v`, in order.
pub open spec fn neq_filter(ts: Seq<Seq<char>>, v: Seq<char>) -> Seq<Seq<char>> {
    ts.filter(|t: Seq<char>| t != v)
}

pub proof fn lemma_neq_filter_push(ts: Seq<Seq<char>>, x: Seq<char>, v: Seq<char>)
    ensures
        neq_filter(ts.push(x), v) == if x != v {
            neq_filter(ts, v).push(x)
        } else {
            neq_filter(ts, v)
        },
{
    reveal(Seq::filter);
    assert((ts.push(x)).drop_last() =~= ts);
}

/// A token list with every entry equal to `o` replaced by `n`.
pub open spec fn replace_tokens(ts: Seq<Seq<char>>, o: Seq<char>, n: Seq<char>) -> Seq<
    Seq<char>,
> {
    ts.map_values(
        |t: Seq<char>|
            if t == o {
                n
            } else {
                t
            },
    )
}

/// The trimmed pieces with every entry equal to `o` replaced by `n`.
pub open spec fn replace_list(s: Seq<char>, o: Seq<char>, n: Seq<char>) -> Seq<Seq<char>> {
    replace_tokens(trim_map(pieces(s)), o, n)
}

/// The trimmed pieces with every entry equal to `v` dropped.
pub open spec fn remove_list(s: Seq<char>, v: Seq<char>) -> Seq<Seq<char>> {
    neq_filter(trim_map(pieces(s)), v)
}

/// Rewrites one denormalized tag string for a tag rename: every
/// comma-separated piece is trimmed, pieces equal to `old_v` become
/// `new_v`, and the pieces are joined back with commas.  Also reports
/// whether any piece matched.
pub fn rename_token(s: &str, old_v: &String, new_v: &String) -> (r: (String, bool))
    ensures
        r.0@ == join_comma(replace_list(s@, old_v@, new_v@)),
        r.1 == trim_map(pieces(s@)).contains(old_v@),
{
    let ps = split_pieces(s);
    let mut out: Vec<String> = Vec::new();
    let mut hit: bool = false;
    let mut i: usize = 0;
    while i < ps.len()
        invariant
            0 <= i <= ps.len(),
            ps.deep_view() == pieces(s@),
            out.deep_view() =~~= replace_tokens(
                trim_map(pieces(s@).subrange(0, i as int)),
                old_v@,
                new_v@,
            ),
            hit == trim_map(pieces(s@).subrange(0, i as int)).contains(old_v@),
        decreases ps.len() - i,
    {
        let ghost pre = pieces(s@).subrange(0, i as int);
        let ghost rd = out.deep_view();
        proof {
            assert(pieces(s@).subrange(0, i + 1) =~= pre.push(pieces(s@)[i as int]));
            assert(trim_map(pre.push(pieces(s@)[i as int])) =~~= trim_map(pre).push(
                trimmed(pieces(s@)[i as int]),
            ));
        }
        let t = trimmed_str(ps[i].as_str()).to_owned();
        let ghost tv = trimmed(pieces(s@)[i as int]);
        if t == *old_v {
            out.push(new_v.clone());
            hit = true;
            proof {
                assert(trim_map(pre).push(tv)[trim_map(pre).len() as int] == old_v@);
            }
        } else {
            out.push(t);
            proof {
                if trim_map(pre).push(tv).contains(old_v@) {
                    let k = choose|k: int|
                        0 <= k < trim_map(pre).push(tv).len() && trim_map(pre).push(tv)[k]
                            == old_v@;
                    assert(k < trim_map(pre).len());
                    assert(trim_map(pre)[k] == old_v@);
                }
                if trim_map(pre).contains(old_v@) {
                    let k = choose|k: int|
                        0 <= k < trim_map(pre).len() && trim_map(pre)[k] == old_v@;
                    assert(trim_map(pre).push(tv)[k] == old_v@);
                }
            }
        }
        proof {
            assert(out.deep_view() =~~= rd.push(if tv == old_v@ {
                new_v@
            } else {
                tv
            }));
            assert(out.deep_view() =~~= replace_tokens(
                trim_map(pieces(s@).subrange(0, i + 1)),
                old_v@,
                new_v@,
            ));
        }
        i = i + 1;
    }
    proof {
        assert(pieces(s@).subrange(0, pieces(s@).len() as int) =~= pieces(s@));
    }
    let joined = join_strings(&out);
    (joined, hit)
}

/// Rewrites one denormalized tag string for a tag deletion: every
/// comma-separated piece is trimmed, pieces equal to `v` are dropped, and
/// the rest are joined back with commas.
pub fn remove_token(s: &str, v: &String) -> (r: String)
    ensures
        r@ == join_comma(remove_list(s@, v@)),
{
    let ps = split_pieces(s);
    let mut out: Vec<String> = Vec::new();
    let mut i: usize = 0;
    while i < ps.len()
        invariant
            0 <= i <= ps.len(),
            ps.deep_view() == pieces(s@),
            out.deep_view() =~~= neq_filter(trim_map(pieces(s@).subrange(0, i as int)), v@),
        decreases ps.len() - i,
    {
        let ghost pre = pieces(s@).subrange(0, i as int);
        let ghost rd = out.deep_view();
        proof {
            assert(pieces(s@).subrange(0, i + 1) =~= pre.push(pieces(s@)[i as int]));
            assert(trim_map(pre.push(pieces(s@)[i as int])) =~~= trim_map(pre).push(
                trimmed(pieces(s@)[i as int]),
            ));
            lemma_neq_filter_push(trim_map(pre), trimmed(pieces(s@)[i as int]), v@);
        }
        let t = trimmed_str(ps[i].as_str()).to_owned();
        if !(t == *v) {
            out.push(t);
            proof {
                assert(out.deep_view() =~~= rd.push(trimmed(pieces(s@)[i as int])));
            }
        }
        i = i + 1;
    }
    proof {
        assert(pieces(s@).subrange(0, pieces(s@).len() as int) =~= pieces(s@));
    }
    join_strings(&out)
}

/// Whether `sub` occurs in `s` as a contiguous substring.
pub open spec fn contains_sub(s: Seq<char>, sub: Seq<char>) -> bool {
    exists|i: int|
        0 <= i <= s.len() - sub.len() && #[trigger] s.subrange(i, i + sub.len() as int) == sub
}

/// A denormalized tag string in the form the catalog stores: the comma
/// join of its own token list, so every piece is trimmed and non-empty
/// (or the whole string is empty).
pub open spec fn canonical_tags(s: Seq<char>) -> bool {
    s == join_comma(token_list(s))
}

pub proof fn lemma_filter_of_empty()
    ensures
        forall|v: Seq<char>| neq_filter(Seq::<Seq<char>>::empty(), v) == Seq::<Seq<char>>::empty(),
        nonempty_filter(Seq::<Seq<char>>::empty()) == Seq::<Seq<char>>::empty(),
{
    reveal(Seq::filter);
}

/// The token list of the empty string is empty.
pub proof fn lemma_token_list_empty()
    ensures
        token_list(Seq::<char>::empty()) == Seq::<Seq<char>>::empty(),
        canonical_tags(Seq::<char>::empty()),
{
    lemma_filter_of_empty();
    let ps = pieces(Seq::<char>::empty());
    assert(ps =~~= Seq::<Seq<char>>::empty().push(Seq::<char>::empty()));
    assert(trim_map(ps) =~~= Seq::<Seq<char>>::empty().push(trimmed(Seq::<char>::empty())));
    lemma_nonempty_filter_push(Seq::<Seq<char>>::empty(), trimmed(Seq::<char>::empty()));
}

/// Every entry of a filtered list is an entry of the list.
proof fn lemma_nonempty_filter_elems(ts: Seq<Seq<char>>)
    ensures
        forall|k: int|
            0 <= k < nonempty_filter(ts).len() ==> ts.contains(
                #[trigger] nonempty_filter(ts)[k],
            ),
    decreases ts.len(),
{
    if ts.len() > 0 {
        let pre = ts.drop_last();
        lemma_nonempty_filter_elems(pre);
        assert(pre.push(ts.last()) =~~= ts);
        lemma_nonempty_filter_push(pre, ts.last());
        assert forall|k: int| 0 <= k < nonempty_filter(ts).len() implies ts.contains(
            #[trigger] nonempty_filter(ts)[k],
        ) by {
            if k < nonempty_filter(pre).len() {
                let e = nonempty_filter(pre)[k];
                assert(pre.contains(e));
                let j = choose|j: int| 0 <= j < pre.len() && pre[j] == e;
                assert(ts[j] == e);
            } else {
                assert(nonempty_filter(ts)[k] == ts.last());
                assert(ts[ts.len() - 1] == ts.last());
            }
        }
    }
}

pub proof fn lemma_neq_filter_elems(ts: Seq<Seq<char>>, v: Seq<char>)
    ensures
        forall|k: int|
            0 <= k < neq_filter(ts, v).len() ==> ts.contains(#[trigger] neq_filter(ts, v)[k]),
    decreases ts.len(),
{
    if ts.len() > 0 {
        let pre = ts.drop_last();
        lemma_neq_filter_elems(pre, v);
        assert(pre.push(ts.last()) =~~= ts);
        lemma_neq_filter_push(pre, ts.last(), v);
        assert forall|k: int| 0 <= k < neq_filter(ts, v).len() implies ts.contains(
            #[trigger] neq_filter(ts, v)[k],
        ) by {
            if k < neq_filter(pre, v).len() {
                let e = neq_filter(pre, v)[k];
                assert(pre.contains(e));
                let j = choose|j: int| 0 <= j < pre.len() && pre[j] == e;
                assert(ts[j] == e);
            } else {
                assert(ts[ts.len() - 1] == ts.last());
            }
        }
    }
}

/// No entry equal to `v` survives the filter.
pub proof fn lemma_neq_filter_pred(ts: Seq<Seq<char>>, v: Seq<char>)
    ensures
        forall|k: int| 0 <= k < neq_filter(ts, v).len() ==> #[trigger] neq_filter(ts, v)[k] != v,
    decreases ts.len(),
{
    if ts.len() == 0 {
        lemma_filter_of_empty();
    } else {
        let pre = ts.drop_last();
        lemma_neq_filter_pred(pre, v);
        assert(pre.push(ts.last()) =~~= ts);
        lemma_neq_filter_push(pre, ts.last(), v);
    }
}

/// Whether the character `c` occurs in `s`.
pub fn contains_char(s: &str, c: char) -> (b: bool)
    ensures
        b == s@.contains(c),
{
    let n = s.unicode_len();
    let mut i: usize = 0;
    while i < n
        invariant
            0 <= i <= n,
            n == s@.len(),
            forall|j: int| 0 <= j < i ==> s@[j] != c,
        decreases n - i,
    {
        if s.get_char(i) == c {
            return true;
        }
        i = i + 1;
    }
    false
}

/// Filtering changes nothing when every entry is non-empty.
pub proof fn lemma_nonempty_filter_all(ts: Seq<Seq<char>>)
    requires
        forall|k: int| 0 <= k < ts.len() ==> (#[trigger] ts[k]).len() > 0,
    ensures
        nonempty_filter(ts) == ts,
    decreases ts.len(),
{
    if ts.len() == 0 {
        lemma_filter_of_empty();
    } else {
        let pre = ts.drop_last();
        lemma_nonempty_filter_all(pre);
        assert(pre.push(ts.last()) =~~= ts);
        lemma_nonempty_filter_push(pre, ts.last());
        assert(ts[ts.len() - 1].len() > 0);
    }
}

/// Each token of a tag string is trimmed, non-empty and comma-free.
pub proof fn lemma_token_list_entries(s: Seq<char>)
    ensures
        forall|k: int|
            0 <= k < token_list(s).len() ==> {
                let t = #[trigger] token_list(s)[k];
                trimmed(t) == t && t.len() > 0 && !t.contains(',')
            },
{
    broadcast use vstd::seq_lib::group_seq_lib_default;

    lemma_pieces_no_comma(s);
    lemma_nonempty_filter_elems(trim_map(pieces(s)));
    assert forall|k: int| 0 <= k < token_list(s).len() implies {
        let t = #[trigger] token_list(s)[k];
        trimmed(t) == t && t.len() > 0 && !t.contains(',')
    } by {
        let t = token_list(s)[k];
        assert(trim_map(pieces(s)).contains(t));
        let j = choose|j: int|
            0 <= j < trim_map(pieces(s)).len() && trim_map(pieces(s))[j] == t;
        assert(t == trimmed(pieces(s)[j]));
        lemma_trimmed_idempotent(pieces(s)[j]);
        lemma_trimmed_chars(pieces(s)[j], ',');
        assert(!pieces(s)[j].contains(','));
    }
}

/// Joining a list of trimmed comma-free entries and tokenizing again gives
/// back the non-empty entries.
pub proof fn lemma_token_list_of_join(ts: Seq<Seq<char>>)
    requires
        forall|k: int|
            0 <= k < ts.len() ==> trimmed(#[trigger] ts[k]) == ts[k] && !ts[k].contains(','),
    ensures
        token_list(join_comma(ts)) == nonempty_filter(ts),
        canonical_tags(join_comma(ts)) || nonempty_filter(ts) != ts,
{
    if ts.len() == 0 {
        lemma_token_list_empty();
        lemma_filter_of_empty();
        assert(join_comma(ts) == Seq::<char>::empty());
    } else {
        lemma_pieces_join(ts);
        assert(trim_map(ts) =~~= ts);
        assert(token_list(join_comma(ts)) == nonempty_filter(ts));
        if nonempty_filter(ts) == ts {
            assert(canonical_tags(join_comma(ts)));
        }
    }
}

/// In a canonical non-empty tag string the pieces are exactly the tokens.
pub proof fn lemma_canonical_pieces(s: Seq<char>)
    requires
        canonical_tags(s),
        token_list(s).len() > 0,
    ensures
        pieces(s) == token_list(s),
        trim_map(pieces(s)) == token_list(s),
{
    lemma_token_list_entries(s);
    lemma_pieces_join(token_list(s));
    assert(trim_map(token_list(s)) =~~= token_list(s));
}

/// A canonical tag string with no tokens is empty.
pub proof fn lemma_canonical_empty(s: Seq<char>)
    requires
        canonical_tags(s),
        token_list(s).len() == 0,
    ensures
        s.len() == 0,
{
}

/// The token-level meaning of the rename rewrite on a canonical string:
/// each token equal to `o` becomes `n`, and the result is canonical again.
pub proof fn lemma_rename_tokens(s: Seq<char>, o: Seq<char>, n: Seq<char>)
    requires
        canonical_tags(s),
        trimmed(n) == n,
        n.len() > 0,
        !n.contains(','),
        o.len() > 0,
    ensures
        token_list(join_comma(replace_list(s, o, n))) == replace_tokens(token_list(s), o, n),
        canonical_tags(join_comma(replace_list(s, o, n))),
{
    lemma_token_list_entries(s);
    if token_list(s).len() == 0 {
        lemma_canonical_empty(s);
        lemma_token_list_empty();
        assert(pieces(s) =~~= Seq::<Seq<char>>::empty().push(Seq::<char>::empty()));
        assert(trimmed(Seq::<char>::empty()) == Seq::<char>::empty());
        assert(trim_map(pieces(s)) =~~= Seq::<Seq<char>>::empty().push(Seq::<char>::empty()));
        assert(replace_list(s, o, n) =~~= Seq::<Seq<char>>::empty().push(Seq::<char>::empty()));
        assert(join_comma(replace_list(s, o, n)) == Seq::<char>::empty());
        assert(replace_tokens(token_list(s), o, n) =~~= Seq::<Seq<char>>::empty());
        lemma_token_list_empty();
    } else {
        lemma_canonical_pieces(s);
        let rl = replace_list(s, o, n);
        assert(rl == replace_tokens(token_list(s), o, n));
        assert forall|k: int| 0 <= k < rl.len() implies trimmed(#[trigger] rl[k]) == rl[k]
            && !rl[k].contains(',') && rl[k].len() > 0 by {
            let t = token_list(s)[k];
            assert(rl[k] == if t == o {
                n
            } else {
                t
            });
        }
        lemma_token_list_of_join(rl);
        lemma_nonempty_filter_all(rl);
    }
}

/// The token-level meaning of the delete rewrite on a canonical string:
/// the tokens equal to `v` disappear, and the result is canonical again.
pub proof fn lemma_remove_tokens(s: Seq<char>, v: Seq<char>)
    requires
        canonical_tags(s),
    ensures
        token_list(join_comma(remove_list(s, v))) == neq_filter(token_list(s), v),
        canonical_tags(join_comma(remove_list(s, v))),
{
    lemma_token_list_entries(s);
    if token_list(s).len() == 0 {
        lemma_canonical_empty(s);
        lemma_token_list_empty();
        lemma_filter_of_empty();
        assert(pieces(s) =~~= Seq::<Seq<char>>::empty().push(Seq::<char>::empty()));
        assert(trimmed(Seq::<char>::empty()) == Seq::<char>::empty());
        assert(trim_map(pieces(s)) =~~= Seq::<Seq<char>>::empty().push(Seq::<char>::empty()));
        lemma_neq_filter_push(Seq::<Seq<char>>::empty(), Seq::<char>::empty(), v);
        if Seq::<char>::empty() != v {
            assert(remove_list(s, v) =~~= Seq::<Seq<char>>::empty().push(
                Seq::<char>::empty(),
            ));
            assert(join_comma(remove_list(s, v)) == Seq::<char>::empty());
        } else {
            assert(remove_list(s, v) =~~= Seq::<Seq<char>>::empty());
            assert(join_comma(remove_list(s, v)) == Seq::<char>::empty());
        }
    } else {
        lemma_canonical_pieces(s);
        let rl = remove_list(s, v);
        assert(rl == neq_filter(token_list(s), v));
        lemma_neq_filter_elems(token_list(s), v);
        assert forall|k: int| 0 <= k < rl.len() implies trimmed(#[trigger] rl[k]) == rl[k]
            && !rl[k].contains(',') && rl[k].len() > 0 by {
            assert(token_list(s).contains(rl[k]));
            let j = choose|j: int|
                0 <= j < token_list(s).len() && token_list(s)[j] == rl[k];
            assert(trimmed(token_list(s)[j]) == token_list(s)[j]);
        }
        lemma_token_list_of_join(rl);
        lemma_nonempty_filter_all(rl);
    }
}

/// Substring containment composes.
pub proof fn lemma_contains_trans(a: Seq<char>, b: Seq<char>, y: Seq<char>)
    requires
        contains_sub(a, b),
        contains_sub(b, y),
    ensures
        contains_sub(a, y),
{
    let i = choose|i: int|
        0 <= i <= a.len() - b.len() && #[trigger] a.subrange(i, i + b.len() as int) == b;
    let j = choose|j: int|
        0 <= j <= b.len() - y.len() && #[trigger] b.subrange(j, j + y.len() as int) == y;
    assert forall|k: int| 0 <= k < y.len() implies a[i + j + k] == y[k] by {
        assert(b[j + k] == b.subrange(j, j + y.len() as int)[k]);
        assert(a[i + j + k] == a.subrange(i, i + b.len() as int)[j + k]);
    }
    assert(a.subrange(i + j, i + j + y.len() as int) =~= y);
}

/// Every entry of a joined list occurs in the joined string.
pub proof fn lemma_join_elem_substring(ts: Seq<Seq<char>>, i: int)
    requires
        0 <= i < ts.len(),
    ensures
        contains_sub(join_comma(ts), ts[i]),
    decreases ts.len(),
{
    let j = join_comma(ts);
    if ts.len() == 1 {
        assert(j.subrange(0, 0 + ts[0].len() as int) =~= ts[0]);
    } else {
        let a = join_comma(ts.drop_last());
        let b = ts.last();
        if i == ts.len() - 1 {
            assert(j.subrange(a.len() as int + 1, a.len() as int + 1 + b.len() as int) =~= b);
        } else {
            lemma_join_elem_substring(ts.drop_last(), i);
            assert(ts.drop_last()[i] == ts[i]);
            let k = choose|k: int|
                0 <= k <= a.len() - ts[i].len() && #[trigger] a.subrange(
                    k,
                    k + ts[i].len() as int,
                ) == ts[i];
            assert(j.subrange(k, k + ts[i].len() as int) =~= ts[i]);
        }
    }
}

/// A comma-free substring of a joined list lies inside one entry.
pub proof fn lemma_contains_join_decompose(ts: Seq<Seq<char>>, y: Seq<char>)
    requires
        ts.len() >= 1,
        !y.contains(','),
        contains_sub(join_comma(ts), y),
    ensures
        exists|i: int| 0 <= i < ts.len() && contains_sub(#[trigger] ts[i], y),
    decreases ts.len(),
{
    let j = join_comma(ts);
    let m = y.len() as int;
    if ts.len() == 1 {
        assert(contains_sub(ts[0], y));
    } else {
        let a = join_comma(ts.drop_last());
        let b = ts.last();
        let lenA = a.len() as int;
        let k = choose|k: int| 0 <= k <= j.len() - m && #[trigger] j.subrange(k, k + m) == y;
        if k + m <= lenA {
            assert(a.subrange(k, k + m) =~= j.subrange(k, k + m));
            lemma_contains_join_decompose(ts.drop_last(), y);
            let w = choose|w: int|
                0 <= w < ts.drop_last().len() && contains_sub(#[trigger] ts.drop_last()[w], y);
            assert(ts[w] == ts.drop_last()[w]);
            assert(contains_sub(ts[w], y));
        } else if k >= lenA + 1 {
            assert(b.subrange(k - lenA - 1, k - lenA - 1 + m) =~= j.subrange(k, k + m));
            assert(contains_sub(ts[ts.len() - 1], y));
        } else {
            assert(j[lenA] == ',');
            assert(y[lenA - k] == j.subrange(k, k + m)[lenA - k]);
            assert(y.contains(','));
        }
    }
}

/// Every token of a canonical tag string occurs in it as a substring.
pub proof fn lemma_token_substring(s: Seq<char>, t: Seq<char>)
    requires
        canonical_tags(s),
        token_list(s).contains(t),
    ensures
        contains_sub(s, t),
{
    let i = choose|i: int| 0 <= i < token_list(s).len() && token_list(s)[i] == t;
    lemma_join_elem_substring(token_list(s), i);
}

/// Substring search, as the catalog's tag filter uses it.
pub fn contains_substring(s: &str, sub: &str) -> (b: bool)
    ensures
        b == contains_sub(s@, sub@),
{
    let n = s.unicode_len();
    let m = sub.unicode_len();
    if m > n {
        return false;
    }
    if m == 0 {
        proof {
            assert(s@.subrange(0, 0 + sub@.len() as int) =~= sub@);
        }
        return true;
    }
    let mut i: usize = 0;
    while i <= n - m
        invariant
            0 < m <= n,
            n == s@.len(),
            m == sub@.len(),
            0 <= i <= n - m + 1,
            forall|k: int| 0 <= k < i ==> #[trigger] s@.subrange(k, k + m as int) != sub@,
        decreases n - i,
    {
        let mut j: usize = 0;
        let mut same: bool = true;
        while same && j < m
            invariant
                0 <= j <= m,
                i + m <= n,
                n == s@.len(),
                m == sub@.len(),
                same ==> forall|jj: int| 0 <= jj < j ==> s@[i + jj] == sub@[jj],
                !same ==> s@.subrange(i as int, i + m as int) != sub@,
            decreases (if same { 1int } else { 0int }) + m - j,
        {
            if s.get_char(i + j) != sub.get_char(j) {
                same = false;
                proof {
                    assert(s@.subrange(i as int, i + m as int)[j as int] != sub@[j as int]);
                }
            } else {
                j = j + 1;
            }
        }
        if same {
            proof {
                assert(s@.subrange(i as int, i + m as int) =~= sub@);
            }
            return true;
        }
        i = i + 1;
    }
    proof {
        assert forall|k: int| 0 <= k <= n - m implies #[trigger] s@.subrange(k, k + m as int)
            != sub@ by {
            assert(0 <= k < i);
        }
    }
    false
}

} // verus!
