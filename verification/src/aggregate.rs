//! Parsing fetched property texts into externals-reference tokens, filtering
//! out the compliant ones, and grouping the survivors per tag root.

use vstd::prelude::*;

use crate::index::entry_full;
use crate::index::full_path;
use crate::index::ListingEntry;
use crate::segments::contains_seq;
use crate::segments::contains_str;
use crate::segments::split_blank;
use crate::segments::split_blank_str;
use crate::segments::str_eq;
use crate::segments::views_of;

verus! {

/// A token the report keeps: non-empty, with "tags" absent from its text.
pub open spec fn keep_token(t: Seq<char>) -> bool {
    t.len() > 0 && !contains_seq(t, "tags"@)
}

/// The kept tokens among the given fields, in order.
pub open spec fn violating_of_fields(fields: Seq<Seq<char>>) -> Seq<Seq<char>>
    decreases fields.len(),
{
    if fields.len() == 0 {
        Seq::empty()
    } else {
        let rest = violating_of_fields(fields.drop_last());
        if keep_token(fields.last()) {
            rest.push(fields.last())
        } else {
            rest
        }
    }
}

/// The violating references of one property text: its blank-separated tokens,
/// without empty ones and without those that already point at a "tags"
/// location.
pub open spec fn violating_tokens(text: Seq<char>) -> Seq<Seq<char>> {
    violating_of_fields(split_blank(text))
}

/// Filtering: every reported token is non-empty with "tags" absent from it,
/// and every field of the text that is non-empty with "tags" absent is
/// reported.
pub proof fn lemma_violating_tokens_filtered(text: Seq<char>)
    ensures
        forall|m: int|
            0 <= m < violating_tokens(text).len() ==> keep_token(
                #[trigger] violating_tokens(text)[m],
            ),
        forall|j: int|
            0 <= j < split_blank(text).len() && keep_token(#[trigger] split_blank(text)[j])
                ==> violating_tokens(text).contains(split_blank(text)[j]),
{
    lemma_violating_of_fields(split_blank(text));
}

proof fn lemma_violating_of_fields(fields: Seq<Seq<char>>)
    ensures
        forall|m: int|
            0 <= m < violating_of_fields(fields).len() ==> keep_token(
                #[trigger] violating_of_fields(fields)[m],
            ),
        forall|j: int|
            0 <= j < fields.len() && keep_token(#[trigger] fields[j]) ==> violating_of_fields(
                fields,
            ).contains(fields[j]),
    decreases fields.len(),
{
    if fields.len() > 0 {
        let dl = fields.drop_last();
        lemma_violating_of_fields(dl);
        let rest = violating_of_fields(dl);
        assert forall|j: int|
            0 <= j < fields.len() && keep_token(#[trigger] fields[j]) implies violating_of_fields(
            fields,
        ).contains(fields[j]) by {
            if j < fields.len() - 1 {
                assert(dl[j] == fields[j]);
                let w = choose|w: int| 0 <= w < rest.len() && rest[w] == fields[j];
                if keep_token(fields.last()) {
                    assert(rest.push(fields.last())[w] == fields[j]);
                }
            } else {
                assert(rest.push(fields.last())[rest.len() as int] == fields.last());
            }
        }
    }
}

/// The violating references of a property text, as owned strings.
pub fn parse_violations(text: &str) -> (r: Vec<String>)
    ensures
        views_of(r@) == violating_tokens(text@),
{
    let fields = split_blank_str(text);
    let ghost ff = split_blank(text@);
    let mut out: Vec<String> = Vec::new();
    let mut j: usize = 0;
    while j < fields.len()
        invariant
            j <= fields@.len(),
            views_of(fields@) == ff,
            views_of(out@) == violating_of_fields(ff.take(j as int)),
        decreases fields@.len() - j,
    {
        proof {
            assert(ff.take(j as int + 1).drop_last() =~= ff.take(j as int));
            assert(ff.take(j as int + 1).last() == ff[j as int]);
            assert(ff[j as int] == fields@[j as int]@);
        }
        let keep = !fields[j].as_str().is_empty() && !contains_str(fields[j].as_str(), "tags");
        if keep {
            let ghost out0 = out@;
            out.push(fields[j].clone());
            proof {
                assert(views_of(out@) =~= views_of(out0).push(ff[j as int]));
            }
        }
        j = j + 1;
    }
    proof {
        assert(ff.take(ff.len() as int) =~= ff);
    }
    out
}

/// The author search from position `k` on: the author of the first entry
/// whose full path equals `r`, or of the first listed entry when none does.
pub open spec fn author_from(root: Seq<char>, l: Seq<ListingEntry>, r: Seq<char>, k: int) -> Seq<
    char,
>
    decreases l.len() - k,
{
    if k < 0 || k >= l.len() {
        if l.len() > 0 {
            l[0].author@
        } else {
            Seq::empty()
        }
    } else if entry_full(root, l, k) == r {
        l[k].author@
    } else {
        author_from(root, l, r, k + 1)
    }
}

/// The author attributed to tag root `r`.
pub open spec fn author_for(root: Seq<char>, l: Seq<ListingEntry>, r: Seq<char>) -> Seq<char> {
    author_from(root, l, r, 0)
}

/// The last-commit author of the entry whose full path equals the tag root
/// exactly, or of the first listed entry when none matches.
pub fn author_for_root(listing: &Vec<ListingEntry>, path: &str, root: &str) -> (r: String)
    requires
        listing@.len() >= 1,
    ensures
        r@ == author_for(path@, listing@, root@),
{
    let mut k: usize = 0;
    while k < listing.len()
        invariant
            k <= listing@.len(),
            listing@.len() >= 1,
            author_for(path@, listing@, root@) == author_from(path@, listing@, root@, k as int),
        decreases listing@.len() - k,
    {
        let fp = full_path(path, &listing[k].name);
        if str_eq(fp.as_str(), root) {
            return listing[k].author.clone();
        }
        k = k + 1;
    }
    listing[0].author.clone()
}

/// The fetch requests of one index row: its tag root paired with each member
/// entry's full path, in member order.
pub open spec fn requests_for(
    root: Seq<char>,
    l: Seq<ListingEntry>,
    key: Seq<char>,
    members: Seq<usize>,
) -> Seq<(Seq<char>, Seq<char>)> {
    Seq::new(members.len(), |m: int| (key, entry_full(root, l, members[m] as int)))
}

/// The fetch requests of the first `t` index rows, in index order.
pub open spec fn requests_upto(
    root: Seq<char>,
    l: Seq<ListingEntry>,
    ix: Seq<(String, Vec<usize>)>,
    t: int,
) -> Seq<(Seq<char>, Seq<char>)>
    decreases t,
{
    if t <= 0 {
        Seq::empty()
    } else {
        requests_upto(root, l, ix, t - 1) + requests_for(root, l, ix[t - 1].0@, ix[t - 1].1@)
    }
}

/// The views of a sequence of owned string pairs.
pub open spec fn pairs_view(v: Seq<(String, String)>) -> Seq<(Seq<char>, Seq<char>)> {
    Seq::new(v.len(), |i: int| (v[i].0@, v[i].1@))
}

/// One fetch request per (tag root, member) pair of the index: the root and
/// the member entry's full repository path, in index order.
pub fn member_paths(
    index: &Vec<(String, Vec<usize>)>,
    listing: &Vec<ListingEntry>,
    path: &str,
) -> (r: Vec<(String, String)>)
    requires
        forall|t: int, m: int|
            0 <= t < index@.len() && 0 <= m < index@[t].1@.len() ==> (#[trigger] index@[t].1@[m])
                < listing@.len(),
    ensures
        pairs_view(r@) == requests_upto(path@, listing@, index@, index@.len() as int),
{
    let mut out: Vec<(String, String)> = Vec::new();
    proof {
        assert(pairs_view(out@) =~= Seq::<(Seq<char>, Seq<char>)>::empty());
    }
    let mut t: usize = 0;
    while t < index.len()
        invariant
            t <= index@.len(),
            forall|u: int, m: int|
                0 <= u < index@.len() && 0 <= m < index@[u].1@.len() ==> (#[trigger] index@[u].1@[m])
                    < listing@.len(),
            pairs_view(out@) == requests_upto(path@, listing@, index@, t as int),
        decreases index@.len() - t,
    {
        let ghost key = index@[t as int].0@;
        let ghost mem = index@[t as int].1@;
        let ghost row_reqs = requests_for(path@, listing@, key, mem);
        let mut m: usize = 0;
        proof {
            assert(row_reqs.take(0) =~= Seq::<(Seq<char>, Seq<char>)>::empty());
            assert(pairs_view(out@) + row_reqs.take(0) =~= pairs_view(out@));
        }
        while m < index[t].1.len()
            invariant
                t < index@.len(),
                m <= mem.len(),
                key == index@[t as int].0@,
                mem == index@[t as int].1@,
                row_reqs == requests_for(path@, listing@, key, mem),
                forall|u: int, w: int|
                    0 <= u < index@.len() && 0 <= w < index@[u].1@.len() ==> (
                #[trigger] index@[u].1@[w]) < listing@.len(),
                pairs_view(out@) == requests_upto(path@, listing@, index@, t as int)
                    + row_reqs.take(m as int),
            decreases mem.len() - m,
        {
            let idx = index[t].1[m];
            assert(idx < listing@.len());
            let fp = full_path(path, &listing[idx].name);
            let ghost out0 = out@;
            out.push((index[t].0.clone(), fp));
            proof {
                assert(pairs_view(out@) =~= pairs_view(out0).push((key, entry_full(
                    path@,
                    listing@,
                    idx as int,
                ))));
                assert(row_reqs.take(m as int + 1) =~= row_reqs.take(m as int).push(
                    row_reqs[m as int],
                ));
                assert(row_reqs[m as int] == (key, entry_full(path@, listing@, mem[m as int] as int)));
                assert(requests_upto(path@, listing@, index@, t as int) + row_reqs.take(
                    m as int + 1,
                ) =~= pairs_view(out@));
            }
            m = m + 1;
        }
        proof {
            assert(row_reqs.take(mem.len() as int) =~= row_reqs);
        }
        t = t + 1;
    }
    out
}

/// The view of a fetch outcome: the text on success, nothing on failure.
pub open spec fn fetch_view(o: Option<String>) -> Option<Seq<char>> {
    match o {
        Some(t) => Some(t@),
        None => None,
    }
}

/// The view of one completion: which root it belongs to, and what came back.
pub open spec fn completion_view(c: (String, Option<String>)) -> (Seq<char>, Option<Seq<char>>) {
    (c.0@, fetch_view(c.1))
}

/// The views of a whole completion sequence.
pub open spec fn completions_view(cs: Seq<(String, Option<String>)>) -> Seq<
    (Seq<char>, Option<Seq<char>>),
> {
    Seq::new(cs.len(), |i: int| completion_view(cs[i]))
}

/// The violating tokens of one fetch outcome: a failed fetch yields none at
/// all, exactly as an empty property text does.
pub open spec fn fetch_tokens(o: Option<Seq<char>>) -> Seq<Seq<char>> {
    match o {
        Some(t) => violating_tokens(t),
        None => Seq::empty(),
    }
}

/// All violating tokens recorded for root `r`: those of its completions, in
/// completion order.
pub open spec fn tokens_for_root(cs: Seq<(Seq<char>, Option<Seq<char>>)>, r: Seq<char>) -> Seq<
    Seq<char>,
>
    decreases cs.len(),
{
    if cs.len() == 0 {
        Seq::empty()
    } else if cs.last().0 == r {
        tokens_for_root(cs.drop_last(), r) + fetch_tokens(cs.last().1)
    } else {
        tokens_for_root(cs.drop_last(), r)
    }
}

/// Removing one completion removes exactly its own contribution to a root's
/// tokens, counted as a multiset.
proof fn lemma_tokens_remove(cs: Seq<(Seq<char>, Option<Seq<char>>)>, k: int, r: Seq<char>)
    requires
        0 <= k < cs.len(),
    ensures
        tokens_for_root(cs, r).to_multiset() == if cs[k].0 == r {
            tokens_for_root(cs.remove(k), r).to_multiset().add(fetch_tokens(cs[k].1).to_multiset())
        } else {
            tokens_for_root(cs.remove(k), r).to_multiset()
        },
    decreases cs.len(),
{
    broadcast use vstd::seq_lib::lemma_multiset_commutative;
    broadcast use vstd::multiset::group_multiset_axioms;

    if k == cs.len() - 1 {
        assert(cs.remove(k) =~= cs.drop_last());
    } else {
        let dl = cs.drop_last();
        lemma_tokens_remove(dl, k, r);
        assert(cs.remove(k).drop_last() =~= dl.remove(k));
        assert(cs.remove(k).last() == cs.last());
        assert(dl[k] == cs[k]);
        if cs.last().0 == r {
            assert(tokens_for_root(cs, r) == tokens_for_root(dl, r) + fetch_tokens(cs.last().1));
            assert(tokens_for_root(cs.remove(k), r) == tokens_for_root(dl.remove(k), r)
                + fetch_tokens(cs.last().1));
            if cs[k].0 == r {
                assert(tokens_for_root(cs, r).to_multiset() =~= tokens_for_root(
                    cs.remove(k),
                    r,
                ).to_multiset().add(fetch_tokens(cs[k].1).to_multiset()));
            }
        }
    }
}

/// Order independence: two completion sequences holding the same outcomes, in
/// whatever order the concurrent fetches finished, record the same tokens for
/// every tag root, counted as a multiset.
pub proof fn lemma_tokens_order_independent(
    cs1: Seq<(Seq<char>, Option<Seq<char>>)>,
    cs2: Seq<(Seq<char>, Option<Seq<char>>)>,
    r: Seq<char>,
)
    requires
        cs1.to_multiset() == cs2.to_multiset(),
    ensures
        tokens_for_root(cs1, r).to_multiset() == tokens_for_root(cs2, r).to_multiset(),
    decreases cs1.len(),
{
    broadcast use vstd::seq_lib::group_to_multiset_ensures;
    broadcast use vstd::seq_lib::lemma_multiset_commutative;
    broadcast use vstd::multiset::group_multiset_axioms;

    if cs1.len() == 0 {
        assert(cs1.to_multiset().len() == cs1.len());
        assert(cs2.to_multiset().len() == cs2.len());
        assert(cs2.len() == 0);
    } else {
        let x = cs1.last();
        let dl = cs1.drop_last();
        assert(cs1 =~= dl.push(x));
        assert(cs1.to_multiset() == dl.to_multiset().insert(x));
        assert(cs2.to_multiset().count(x) > 0);
        assert(cs2.contains(x));
        let k = choose|k: int| 0 <= k < cs2.len() && cs2[k] == x;
        assert(cs2.remove(k).to_multiset() =~= cs2.to_multiset().remove(x));
        assert(dl.to_multiset() =~= cs1.to_multiset().remove(x));
        lemma_tokens_order_independent(dl, cs2.remove(k), r);
        lemma_tokens_remove(cs2, k, r);
        if x.0 == r {
            assert(tokens_for_root(cs1, r) == tokens_for_root(dl, r) + fetch_tokens(x.1));
        }
    }
}

/// Fault tolerance: a completion whose fetch failed contributes no tokens,
/// and dropping it leaves every tag root's tokens exactly unchanged.
pub proof fn lemma_failed_fetch_inert(
    cs: Seq<(Seq<char>, Option<Seq<char>>)>,
    k: int,
    r: Seq<char>,
)
    requires
        0 <= k < cs.len(),
        cs[k].1 is None,
    ensures
        tokens_for_root(cs, r) == tokens_for_root(cs.remove(k), r),
    decreases cs.len(),
{
    if k == cs.len() - 1 {
        assert(cs.remove(k) =~= cs.drop_last());
        if cs.last().0 == r {
            assert(fetch_tokens(cs.last().1) =~= Seq::<Seq<char>>::empty());
            assert(tokens_for_root(cs.drop_last(), r) + fetch_tokens(cs.last().1)
                =~= tokens_for_root(cs.drop_last(), r));
        }
    } else {
        let dl = cs.drop_last();
        lemma_failed_fetch_inert(dl, k, r);
        assert(cs.remove(k).drop_last() =~= dl.remove(k));
        assert(cs.remove(k).last() == cs.last());
    }
}

/// What the scan reports for one tag root.
#[derive(Debug)]
pub struct AggregationResult {
    pub author: String,
    pub violating_references: Vec<String>,
}

/// The violating tokens of the completions keyed by `key`, in completion
/// order.
fn tokens_for_key(completions: &Vec<(String, Option<String>)>, key: &str) -> (r: Vec<String>)
    ensures
        views_of(r@) == tokens_for_root(completions_view(completions@), key@),
{
    let ghost cv = completions_view(completions@);
    let mut out: Vec<String> = Vec::new();
    let mut m: usize = 0;
    while m < completions.len()
        invariant
            m <= completions@.len(),
            cv == completions_view(completions@),
            views_of(out@) == tokens_for_root(cv.take(m as int), key@),
        decreases completions@.len() - m,
    {
        proof {
            assert(cv.take(m as int + 1).drop_last() =~= cv.take(m as int));
            assert(cv.take(m as int + 1).last() == cv[m as int]);
            assert(cv[m as int] == completion_view(completions@[m as int]));
        }
        let c = &completions[m];
        if str_eq(c.0.as_str(), key) {
            match &c.1 {
                Some(text) => {
                    let ghost out0 = out@;
                    let mut toks = parse_violations(text.as_str());
                    let ghost toks0 = toks@;
                    out.append(&mut toks);
                    proof {
                        assert(views_of(out@) =~= views_of(out0) + views_of(toks0));
                        assert(fetch_tokens(cv[m as int].1) == violating_tokens(text@));
                    }
                },
                None => {
                    proof {
                        assert(fetch_tokens(cv[m as int].1) =~= Seq::<Seq<char>>::empty());
                        assert(tokens_for_root(cv.take(m as int + 1), key@) =~= tokens_for_root(
                            cv.take(m as int),
                            key@,
                        ));
                    }
                },
            }
        }
        m = m + 1;
    }
    proof {
        assert(cv.take(cv.len() as int) =~= cv);
    }
    out
}

/// One report per tag root of the index: the root's attributed author, and
/// the violating references of every fetch outcome keyed by that root, in
/// completion order. A failed fetch contributes nothing and harms nothing.
pub fn aggregate(
    index: &Vec<(String, Vec<usize>)>,
    listing: &Vec<ListingEntry>,
    path: &str,
    completions: &Vec<(String, Option<String>)>,
) -> (r: Vec<(String, AggregationResult)>)
    requires
        index@.len() > 0 ==> listing@.len() >= 1,
    ensures
        r@.len() == index@.len(),
        forall|t: int| 0 <= t < r@.len() ==> (#[trigger] r@[t].0)@ == index@[t].0@,
        forall|t: int|
            0 <= t < r@.len() ==> (#[trigger] r@[t].1).author@ == author_for(
                path@,
                listing@,
                index@[t].0@,
            ),
        forall|t: int|
            0 <= t < r@.len() ==> views_of((#[trigger] r@[t].1).violating_references@)
                == tokens_for_root(completions_view(completions@), index@[t].0@),
{
    let mut result: Vec<(String, AggregationResult)> = Vec::new();
    let mut t: usize = 0;
    while t < index.len()
        invariant
            t <= index@.len(),
            index@.len() > 0 ==> listing@.len() >= 1,
            result@.len() == t,
            forall|u: int| 0 <= u < t ==> (#[trigger] result@[u].0)@ == index@[u].0@,
            forall|u: int|
                0 <= u < t ==> (#[trigger] result@[u].1).author@ == author_for(
                    path@,
                    listing@,
                    index@[u].0@,
                ),
            forall|u: int|
                0 <= u < t ==> views_of((#[trigger] result@[u].1).violating_references@)
                    == tokens_for_root(completions_view(completions@), index@[u].0@),
        decreases index@.len() - t,
    {
        let key = index[t].0.clone();
        let author = author_for_root(listing, path, key.as_str());
        let toks = tokens_for_key(completions, key.as_str());
        result.push((key, AggregationResult { author, violating_references: toks }));
        t = t + 1;
    }
    result
}

} // verus!
