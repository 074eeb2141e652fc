//! Derivation of canonical tag roots: the directory one level below the first
//! "tags" segment of a path.

use vstd::prelude::*;

use crate::segments::contains_seq;
use crate::segments::is_sep;
use crate::segments::lemma_contains_trans;
use crate::segments::lemma_prefix_contained;
use crate::segments::lemma_split_append;
use crate::segments::lemma_split_by_len;
use crate::segments::lemma_split_by_no_delim;
use crate::segments::lemma_suffix_contained;
use crate::segments::prepend_first;
use crate::segments::sep_pred;
use crate::segments::split_by;
use crate::segments::split_path;
use crate::segments::split_path_str;
use crate::segments::str_eq;
use crate::segments::views_of;

verus! {

/// The view of a path with a single trailing separator removed.
pub open spec fn strip_trailing_slash(s: Seq<char>) -> Seq<char> {
    if s.len() > 0 && s.last() == '/' {
        s.drop_last()
    } else {
        s
    }
}

/// Canonical form of a scan root: one trailing path separator, if any, removed.
pub fn remove_last_slash(input_str: &str) -> (r: String)
    ensures
        r@ == strip_trailing_slash(input_str@),
{
    let n = input_str.unicode_len();
    if n > 0 && input_str.get_char(n - 1) == '/' {
        let stripped = input_str.substring_char(0, n - 1);
        assert(stripped@ =~= input_str@.drop_last());
        stripped.to_owned()
    } else {
        input_str.to_owned()
    }
}

/// The segments joined back into a path with `/` between them.
pub open spec fn join_path(fields: Seq<Seq<char>>) -> Seq<char>
    decreases fields.len(),
{
    if fields.len() == 0 {
        Seq::empty()
    } else if fields.len() == 1 {
        fields[0]
    } else {
        fields[0] + seq!['/'] + join_path(fields.drop_first())
    }
}

/// A segment equal to "tags" followed by at least one further, non-empty
/// segment: the one that names the tag. An empty segment, left by adjacent
/// separators, names no directory and qualifies nothing; a root cut after it
/// would end with a separator, which no tag root may.
pub open spec fn tag_at(segs: Seq<Seq<char>>, j: int) -> bool {
    segs[j] == "tags"@ && j + 2 <= segs.len() && segs[j + 1].len() > 0
}

/// The first index at or after `k` whose segment is "tags" followed by at
/// least one further, non-empty segment.
pub open spec fn tag_seg_idx(segs: Seq<Seq<char>>, k: int) -> Option<int>
    decreases segs.len() - k,
{
    if k < 0 || k >= segs.len() {
        None
    } else if tag_at(segs, k) {
        Some(k)
    } else {
        tag_seg_idx(segs, k + 1)
    }
}

/// The canonical tag root of a path: its segments up to and including the one
/// right after the first qualifying "tags" segment, joined again; no result
/// when no "tags" segment has a non-empty follower.
pub open spec fn tag_root_of(p: Seq<char>) -> Option<Seq<char>> {
    match tag_seg_idx(split_path(p), 0) {
        Some(i) => Some(join_path(split_path(p).take(i + 2))),
        None => None,
    }
}

/// What `tag_seg_idx` finds: the first qualifying index, or a witness that
/// none exists.
pub proof fn lemma_tag_seg_idx_first(segs: Seq<Seq<char>>, k: int)
    requires
        0 <= k,
    ensures
        match tag_seg_idx(segs, k) {
            Some(i) => k <= i && tag_at(segs, i) && forall|j: int| k <= j < i ==> !tag_at(segs, j),
            None => forall|j: int| k <= j < segs.len() ==> !tag_at(segs, j),
        },
    decreases segs.len() - k,
{
    if k >= segs.len() {
    } else if tag_at(segs, k) {
    } else {
        lemma_tag_seg_idx_first(segs, k + 1);
    }
}

/// Prepending onto the first field commutes with joining.
proof fn lemma_join_prepend_first(c: Seq<char>, fields: Seq<Seq<char>>)
    requires
        fields.len() >= 1,
    ensures
        join_path(prepend_first(c, fields)) == c + join_path(fields),
{
    let pf = prepend_first(c, fields);
    if fields.len() == 1 {
        assert(pf =~= seq![c + fields[0]]);
        assert(join_path(pf) == c + fields[0]);
    } else {
        assert(pf[0] == c + fields[0]);
        assert(pf.drop_first() =~= fields.drop_first());
        assert(join_path(pf) == (c + fields[0]) + seq!['/'] + join_path(fields.drop_first()));
        assert((c + fields[0]) + seq!['/'] + join_path(fields.drop_first()) =~= c + (fields[0]
            + seq!['/'] + join_path(fields.drop_first())));
    }
}

/// Joining one more segment appends a separator and that segment.
pub proof fn lemma_join_take_snoc(fields: Seq<Seq<char>>, j: int)
    requires
        1 <= j < fields.len(),
    ensures
        join_path(fields.take(j + 1)) == join_path(fields.take(j)) + seq!['/'] + fields[j],
    decreases j,
{
    if j == 1 {
        assert(fields.take(2).drop_first() =~= seq![fields[1]]);
        assert(join_path(seq![fields[1]]) == fields[1]);
        assert(join_path(fields.take(2)) == fields[0] + seq!['/'] + fields[1]);
        assert(fields.take(1) =~= seq![fields[0]]);
        assert(join_path(fields.take(1)) == fields[0]);
    } else {
        let g = fields.drop_first();
        lemma_join_take_snoc(g, j - 1);
        assert(fields.take(j + 1).drop_first() =~= g.take(j));
        assert(fields.take(j).drop_first() =~= g.take(j - 1));
        assert(fields.take(j + 1)[0] == fields[0]);
        assert(fields.take(j)[0] == fields[0]);
        assert(join_path(fields.take(j + 1)) == fields[0] + seq!['/'] + join_path(g.take(j)));
        assert(join_path(fields.take(j)) == fields[0] + seq!['/'] + join_path(g.take(j - 1)));
        assert(g[j - 1] == fields[j]);
        assert(fields[0] + seq!['/'] + (join_path(g.take(j - 1)) + seq!['/'] + g[j - 1]) =~= (
        fields[0] + seq!['/'] + join_path(g.take(j - 1))) + seq!['/'] + fields[j]);
    }
}

/// The join of the first `k` segments of a split path is a prefix of the path,
/// ending at the path's end or right before a separator.
pub proof fn lemma_join_take_prefix(s: Seq<char>, k: int)
    requires
        1 <= k <= split_path(s).len(),
    ensures
        join_path(split_path(s).take(k)).len() <= s.len(),
        join_path(split_path(s).take(k)) == s.take(join_path(split_path(s).take(k)).len() as int),
        k < split_path(s).len() ==> join_path(split_path(s).take(k)).len() < s.len() && s[join_path(
            split_path(s).take(k),
        ).len() as int] == '/',
        k == split_path(s).len() ==> join_path(split_path(s).take(k)).len() == s.len(),
    decreases s.len(),
{
    let ss = split_path(s);
    if s.len() == 0 {
        assert(ss =~= seq![Seq::<char>::empty()]);
        assert(ss.take(1) =~= ss);
        assert(join_path(ss.take(k)) == Seq::<char>::empty());
        assert(s.take(0) =~= Seq::<char>::empty());
    } else {
        let s1 = s.drop_first();
        let ss1 = split_path(s1);
        lemma_split_by_len(s1, sep_pred());
        assert(sep_pred()(s[0]) == is_sep(s[0]));
        if is_sep(s[0]) {
            assert(ss == seq![Seq::<char>::empty()] + ss1);
            if k == 1 {
                assert(ss.take(1) =~= seq![Seq::<char>::empty()]);
                assert(join_path(ss.take(1)) == Seq::<char>::empty());
                assert(s.take(0) =~= Seq::<char>::empty());
                assert(s[0] == '/');
            } else {
                lemma_join_take_prefix(s1, k - 1);
                let l1 = join_path(ss1.take(k - 1)).len() as int;
                assert(ss.take(k).drop_first() =~= ss1.take(k - 1));
                assert(ss.take(k)[0] == Seq::<char>::empty());
                assert(join_path(ss.take(k)) == Seq::<char>::empty() + seq!['/'] + join_path(
                    ss1.take(k - 1),
                ));
                assert(Seq::<char>::empty() + seq!['/'] + join_path(ss1.take(k - 1)) =~= seq!['/']
                    + s1.take(l1));
                assert(s.take(1 + l1) =~= seq![s[0]] + s1.take(l1));
                assert(seq![s[0]] =~= seq!['/']);
                if k < ss.len() {
                    assert(k - 1 < ss1.len());
                    assert(s[1 + l1] == s1[l1]);
                }
            }
        } else {
            let rest = split_by(s1, sep_pred());
            assert(ss == seq![seq![s[0]] + rest[0]] + rest.drop_first());
            assert(ss.len() == ss1.len());
            assert(ss.take(k) =~= prepend_first(seq![s[0]], ss1.take(k))) by {
                assert(ss1.take(k)[0] == ss1[0]);
                assert(ss1.take(k).drop_first() =~= ss1.drop_first().take(k - 1));
                assert(ss.take(k)[0] == seq![s[0]] + ss1[0]);
                assert(ss.take(k).drop_first() =~= ss1.drop_first().take(k - 1));
            };
            lemma_join_prepend_first(seq![s[0]], ss1.take(k));
            lemma_join_take_prefix(s1, k);
            let l1 = join_path(ss1.take(k)).len() as int;
            assert(join_path(ss.take(k)) == seq![s[0]] + s1.take(l1));
            assert(s.take(1 + l1) =~= seq![s[0]] + s1.take(l1));
            if k < ss.len() {
                assert(s[1 + l1] == s1[l1]);
            }
        }
    }
}

/// Every segment of a joined sequence is contained in the join.
pub proof fn lemma_join_contains_segment(fields: Seq<Seq<char>>, m: int)
    requires
        0 <= m < fields.len(),
    ensures
        contains_seq(join_path(fields), fields[m]),
    decreases m,
{
    let jp = join_path(fields);
    if fields.len() == 1 {
        assert(jp == fields[0]);
        assert(jp.subrange(0, jp.len() as int) =~= jp);
        lemma_prefix_contained(jp, jp.len() as int);
    } else if m == 0 {
        assert(jp == fields[0] + seq!['/'] + join_path(fields.drop_first()));
        assert(jp.subrange(0, fields[0].len() as int) =~= fields[0]);
        lemma_prefix_contained(jp, fields[0].len() as int);
    } else {
        let g = fields.drop_first();
        lemma_join_contains_segment(g, m - 1);
        assert(jp =~= (fields[0] + seq!['/']) + join_path(g));
        lemma_suffix_contained(fields[0] + seq!['/'], join_path(g));
        lemma_contains_trans(jp, join_path(g), g[m - 1]);
        assert(g[m - 1] == fields[m]);
    }
}

/// A derived tag root contains "tags" itself: it ends one segment after a
/// "tags" segment.
pub proof fn lemma_tag_root_contains_tags(p: Seq<char>, r: Seq<char>)
    requires
        tag_root_of(p) == Some(r),
    ensures
        contains_seq(r, "tags"@),
{
    let ss = split_path(p);
    lemma_tag_seg_idx_first(ss, 0);
    let i = tag_seg_idx(ss, 0)->Some_0;
    assert(ss.take(i + 2)[i] == "tags"@);
    lemma_join_contains_segment(ss.take(i + 2), i);
}

/// A path with a "tags" segment that at least one further segment follows
/// derives a tag root, and the root is the path truncated exactly after that
/// following segment: a prefix of the path that ends at the path's end or
/// right before a separator, however many further segments follow.
pub proof fn lemma_tag_root_truncates(p: Seq<char>, i: int)
    requires
        0 <= i,
        tag_at(split_path(p), i),
    ensures
        tag_root_of(p) is Some,
        ({
            let r = tag_root_of(p)->Some_0;
            &&& r.len() <= p.len()
            &&& r == p.take(r.len() as int)
            &&& r.len() == p.len() || p[r.len() as int] == '/'
        }),
{
    let ss = split_path(p);
    lemma_tag_seg_idx_first(ss, 0);
    if tag_seg_idx(ss, 0) is None {
        assert(!tag_at(ss, i));
        assert(false);
    }
    let i0 = tag_seg_idx(ss, 0)->Some_0;
    lemma_join_take_prefix(p, i0 + 2);
}

/// The first qualifying "tags" segment does not move when further segments
/// are appended to the path.
proof fn lemma_tag_seg_idx_extend(segs: Seq<Seq<char>>, ext: Seq<Seq<char>>, k: int)
    requires
        0 <= k,
        tag_seg_idx(segs, k) is Some,
    ensures
        tag_seg_idx(segs + ext, k) == tag_seg_idx(segs, k),
    decreases segs.len() - k,
{
    if k >= segs.len() {
        assert(tag_seg_idx(segs, k) is None);
        assert(false);
    }
    assert((segs + ext)[k] == segs[k]);
    if tag_at(segs, k) {
        assert((segs + ext)[k + 1] == segs[k + 1]);
        assert(tag_at(segs + ext, k));
    } else {
        if segs[k] == "tags"@ && k == segs.len() - 1 {
            // no follower inside segs: the search past this point comes back
            // empty, against the assumption that it found a root
            assert(tag_seg_idx(segs, k + 1) is None);
            assert(false);
        }
        assert(!tag_at(segs + ext, k)) by {
            if (segs + ext)[k] == "tags"@ {
                assert(k + 1 < segs.len());
                assert((segs + ext)[k + 1] == segs[k + 1]);
            }
        };
        lemma_tag_seg_idx_extend(segs, ext, k + 1);
    }
}

/// A derived tag root is the same however many further segments follow the
/// path below it.
pub proof fn lemma_tag_root_extension(p: Seq<char>, rest: Seq<char>)
    requires
        tag_root_of(p) is Some,
    ensures
        tag_root_of(p + seq!['/'] + rest) == tag_root_of(p),
{
    let ss = split_path(p);
    let ext = split_path(rest);
    assert(sep_pred()('/'));
    lemma_split_append(p, '/', rest, sep_pred());
    assert(split_path(p + seq!['/'] + rest) == ss + ext);
    lemma_tag_seg_idx_extend(ss, ext, 0);
    let i = tag_seg_idx(ss, 0)->Some_0;
    lemma_tag_seg_idx_first(ss, 0);
    assert((ss + ext).take(i + 2) =~= ss.take(i + 2));
}

/// A tag root never ends with a path separator: it ends on the last character
/// of its naming segment, which is non-empty and holds no separator.
pub proof fn lemma_tag_root_no_trailing_sep(p: Seq<char>)
    requires
        tag_root_of(p) is Some,
    ensures
        tag_root_of(p)->Some_0.len() > 0,
        tag_root_of(p)->Some_0.last() != '/',
{
    let ss = split_path(p);
    lemma_tag_seg_idx_first(ss, 0);
    let i = tag_seg_idx(ss, 0)->Some_0;
    lemma_join_take_snoc(ss, i + 1);
    let root = tag_root_of(p)->Some_0;
    assert(root == join_path(ss.take(i + 1)) + seq!['/'] + ss[i + 1]);
    assert(root.last() == ss[i + 1].last());
    lemma_split_by_no_delim(p, sep_pred(), i + 1, ss[i + 1].len() - 1);
    assert(sep_pred()(ss[i + 1].last()) == is_sep(ss[i + 1].last()));
}

/// A path whose only "tags" segment is its last segment derives no tag root.
pub proof fn lemma_tags_last_no_root(p: Seq<char>)
    requires
        split_path(p).last() == "tags"@,
        forall|j: int| 0 <= j < split_path(p).len() - 1 ==> split_path(p)[j] != "tags"@,
    ensures
        tag_root_of(p) is None,
{
    let ss = split_path(p);
    lemma_split_by_len(p, sep_pred());
    lemma_tag_seg_idx_first(ss, 0);
    if tag_seg_idx(ss, 0) is Some {
        let i = tag_seg_idx(ss, 0)->Some_0;
        assert(tag_at(ss, i));
        assert(i < ss.len() - 1);
        assert(ss[i] != "tags"@);
        assert(false);
    }
}

/// Joins the first `upto` segments with `/` between them.
fn join_segments(segs: &Vec<String>, upto: usize) -> (r: String)
    requires
        1 <= upto <= segs@.len(),
    ensures
        r@ == join_path(views_of(segs@).take(upto as int)),
{
    let ghost ff = views_of(segs@);
    let mut out: String = segs[0].clone();
    proof {
        assert(ff.take(1) =~= seq![ff[0]]);
        assert(join_path(ff.take(1)) == ff[0]);
        assert(out@ == ff[0]);
    }
    let mut j: usize = 1;
    while j < upto
        invariant
            1 <= j <= upto <= segs@.len(),
            ff == views_of(segs@),
            out@ == join_path(ff.take(j as int)),
        decreases upto - j,
    {
        out.append("/");
        out.append(segs[j].as_str());
        proof {
            reveal_strlit("/");
            assert("/"@ =~= seq!['/']);
            lemma_join_take_snoc(ff, j as int);
            assert(ff[j as int] == segs@[j as int]@);
        }
        j = j + 1;
    }
    out
}

/// The canonical tag name of a path: the path cut one segment after its first
/// qualifying "tags" segment, or nothing when no "tags" segment is followed by
/// a further, non-empty segment. A returned root never ends with a path
/// separator.
pub fn find_valid_tag_name(path: &str) -> (r: Option<String>)
    ensures
        match r {
            Some(s) => tag_root_of(path@) == Some(s@) && s@.len() > 0 && s@.last() != '/',
            None => tag_root_of(path@) is None,
        },
{
    let segs = split_path_str(path);
    let ghost ss = split_path(path@);
    let n = segs.len();
    assert(n == ss.len());
    let mut k: usize = 0;
    while k < n
        invariant
            k <= n,
            n == segs@.len(),
            views_of(segs@) == ss,
            ss == split_path(path@),
            tag_seg_idx(ss, 0) == tag_seg_idx(ss, k as int),
        decreases n - k,
    {
        proof {
            assert(ss[k as int] == segs@[k as int]@);
        }
        let is_tags = str_eq(segs[k].as_str(), "tags");
        if is_tags && n >= 2 && k <= n - 2 {
            proof {
                assert(ss[k as int + 1] == segs@[k as int + 1]@);
            }
            if !segs[k + 1].as_str().is_empty() {
                proof {
                    assert(tag_at(ss, k as int));
                    assert(tag_seg_idx(ss, k as int) == Some(k as int));
                }
                let root = join_segments(&segs, k + 2);
                proof {
                    lemma_tag_root_no_trailing_sep(path@);
                }
                return Some(root);
            }
        }
        proof {
            assert(!tag_at(ss, k as int));
            assert(tag_seg_idx(ss, k as int) == tag_seg_idx(ss, k as int + 1));
        }
        k = k + 1;
    }
    assert(tag_seg_idx(ss, n as int) is None);
    None
}

} // verus!
