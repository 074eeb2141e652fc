//! Splitting paths and property texts into fields, and substring containment,
//! with their mathematical models.

use vstd::prelude::*;

verus! {

/// True of the path separator.
pub open spec fn is_sep(c: char) -> bool {
    c == '/'
}

/// True of the characters that delimit tokens in a property text.
pub open spec fn is_blank(c: char) -> bool {
    c == ' ' || c == '\t' || c == '\n' || c == '\r'
}

/// The separator test as a function value, so that every use names one term.
pub open spec fn sep_pred() -> spec_fn(char) -> bool {
    |c: char| is_sep(c)
}

/// The blank test as a function value, so that every use names one term.
pub open spec fn blank_pred() -> spec_fn(char) -> bool {
    |c: char| is_blank(c)
}

/// The fields of `s` between delimiter characters. There is one more field
/// than there are delimiter characters, so the result is never empty; empty
/// fields arise from adjacent delimiters and at the ends.
pub open spec fn split_by(s: Seq<char>, delim: spec_fn(char) -> bool) -> Seq<Seq<char>>
    decreases s.len(),
{
    if s.len() == 0 {
        seq![Seq::<char>::empty()]
    } else if delim(s[0]) {
        seq![Seq::<char>::empty()] + split_by(s.drop_first(), delim)
    } else {
        let rest = split_by(s.drop_first(), delim);
        seq![seq![s[0]] + rest[0]] + rest.drop_first()
    }
}

/// The segments of a path, split on `/`.
pub open spec fn split_path(s: Seq<char>) -> Seq<Seq<char>> {
    split_by(s, sep_pred())
}

/// The fields of a property text, split on blanks and line breaks.
pub open spec fn split_blank(s: Seq<char>) -> Seq<Seq<char>> {
    split_by(s, blank_pred())
}

pub broadcast proof fn lemma_split_by_len(s: Seq<char>, delim: spec_fn(char) -> bool)
    ensures
        #[trigger] split_by(s, delim).len() >= 1,
    decreases s.len(),
{
    if s.len() > 0 {
        lemma_split_by_len(s.drop_first(), delim);
    }
}

/// No field of a split contains a delimiter character.
pub proof fn lemma_split_by_no_delim(s: Seq<char>, delim: spec_fn(char) -> bool, f: int, c: int)
    requires
        0 <= f < split_by(s, delim).len(),
        0 <= c < split_by(s, delim)[f].len(),
    ensures
        !delim(split_by(s, delim)[f][c]),
    decreases s.len(),
{
    if s.len() == 0 {
        assert(split_by(s, delim)[0].len() == 0);
    } else {
        let rest = split_by(s.drop_first(), delim);
        lemma_split_by_len(s.drop_first(), delim);
        if delim(s[0]) {
            assert(split_by(s, delim)[f] == (seq![Seq::<char>::empty()] + rest)[f]);
            if f == 0 {
                assert(split_by(s, delim)[0].len() == 0);
            } else {
                lemma_split_by_no_delim(s.drop_first(), delim, f - 1, c);
                assert(split_by(s, delim)[f] == rest[f - 1]);
            }
        } else {
            if f == 0 {
                assert(split_by(s, delim)[0] == seq![s[0]] + rest[0]);
                if c == 0 {
                    assert(split_by(s, delim)[0][0] == s[0]);
                } else {
                    lemma_split_by_no_delim(s.drop_first(), delim, 0, c - 1);
                    assert(split_by(s, delim)[0][c] == rest[0][c - 1]);
                }
            } else {
                lemma_split_by_no_delim(s.drop_first(), delim, f, c);
                assert(split_by(s, delim)[f] == rest.drop_first()[f - 1]);
                assert(rest.drop_first()[f - 1] == rest[f]);
            }
        }
    }
}

/// Splitting a concatenation around a delimiter splits each side on its own.
pub proof fn lemma_split_append(a: Seq<char>, c: char, b: Seq<char>, delim: spec_fn(char) -> bool)
    requires
        delim(c),
    ensures
        split_by(a + seq![c] + b, delim) == split_by(a, delim) + split_by(b, delim),
    decreases a.len(),
{
    let w = a + seq![c] + b;
    if a.len() == 0 {
        assert(w =~= seq![c] + b);
        assert(w[0] == c);
        assert(w.drop_first() =~= b);
        assert(split_by(w, delim) == seq![Seq::<char>::empty()] + split_by(b, delim));
        assert(split_by(a, delim) == seq![Seq::<char>::empty()]);
    } else {
        let a1 = a.drop_first();
        lemma_split_append(a1, c, b, delim);
        assert(w[0] == a[0]);
        assert(w.drop_first() =~= a1 + seq![c] + b);
        lemma_split_by_len(a1, delim);
        lemma_split_by_len(a1 + seq![c] + b, delim);
        if delim(a[0]) {
            assert(split_by(w, delim) == seq![Seq::<char>::empty()] + (split_by(a1, delim)
                + split_by(b, delim)));
            assert(split_by(a, delim) == seq![Seq::<char>::empty()] + split_by(a1, delim));
            assert(seq![Seq::<char>::empty()] + (split_by(a1, delim) + split_by(b, delim)) =~= (
            seq![Seq::<char>::empty()] + split_by(a1, delim)) + split_by(b, delim));
        } else {
            let r1 = split_by(a1, delim);
            let rw = split_by(a1 + seq![c] + b, delim);
            assert(rw == r1 + split_by(b, delim));
            assert(rw[0] == r1[0]);
            assert(rw.drop_first() =~= r1.drop_first() + split_by(b, delim));
            assert(split_by(w, delim) == seq![seq![a[0]] + r1[0]] + (r1.drop_first() + split_by(
                b,
                delim,
            )));
            assert(split_by(a, delim) == seq![seq![a[0]] + r1[0]] + r1.drop_first());
            assert(seq![seq![a[0]] + r1[0]] + (r1.drop_first() + split_by(b, delim)) =~= (seq![
                seq![a[0]] + r1[0],
            ] + r1.drop_first()) + split_by(b, delim));
        }
    }
}

/// The views of a sequence of owned strings.
pub open spec fn views_of(v: Seq<String>) -> Seq<Seq<char>> {
    Seq::new(v.len(), |i: int| v[i]@)
}

pub proof fn lemma_views_of_push(v: Seq<String>, x: String)
    ensures
        views_of(v.push(x)) == views_of(v).push(x@),
{
    assert(views_of(v.push(x)) =~= views_of(v).push(x@));
}

/// The fields with the first one extended on the left by `c`.
pub open spec fn prepend_first(c: Seq<char>, fields: Seq<Seq<char>>) -> Seq<Seq<char>> {
    seq![c + fields[0]] + fields.drop_first()
}

proof fn lemma_prepend_first_empty(fields: Seq<Seq<char>>)
    requires
        fields.len() >= 1,
    ensures
        prepend_first(Seq::<char>::empty(), fields) == fields,
{
    assert(Seq::<char>::empty() + fields[0] =~= fields[0]);
    assert(prepend_first(Seq::<char>::empty(), fields) =~= fields);
}

/// How the split of a suffix advances over one character.
proof fn lemma_split_skip_step(s: Seq<char>, delim: spec_fn(char) -> bool, i: int)
    requires
        0 <= i < s.len(),
    ensures
        delim(s[i]) ==> split_by(s.skip(i), delim) == seq![Seq::<char>::empty()] + split_by(
            s.skip(i + 1),
            delim,
        ),
        !delim(s[i]) ==> split_by(s.skip(i), delim) == prepend_first(
            seq![s[i]],
            split_by(s.skip(i + 1), delim),
        ),
{
    assert(s.skip(i).len() == s.len() - i);
    assert(s.skip(i)[0] == s[i]);
    assert(s.skip(i).drop_first() =~= s.skip(i + 1));
    lemma_split_by_len(s.skip(i + 1), delim);
    if !delim(s[i]) {
        let rest = split_by(s.skip(i + 1), delim);
        assert(split_by(s.skip(i), delim) == seq![seq![s[i]] + rest[0]] + rest.drop_first());
        assert(seq![seq![s[i]] + rest[0]] + rest.drop_first() =~= prepend_first(seq![s[i]], rest));
    }
}

/// Splits `s` on `/` when `blanks` is false, and on blanks and line breaks
/// when it is true.
fn split_gen(s: &str, blanks: bool) -> (r: Vec<String>)
    ensures
        views_of(r@) == split_by(s@, if blanks { blank_pred() } else { sep_pred() }),
{
    let ghost d = if blanks { blank_pred() } else { sep_pred() };
    let n = s.unicode_len();
    let mut acc: Vec<String> = Vec::new();
    let mut start: usize = 0;
    let mut i: usize = 0;
    proof {
        lemma_split_by_len(s@, d);
        assert(s@.skip(0) =~= s@);
        lemma_prepend_first_empty(split_by(s@, d));
        assert(s@.subrange(0, 0) =~= Seq::<char>::empty());
        assert(views_of(acc@) =~= Seq::<Seq<char>>::empty());
        assert(views_of(acc@) + prepend_first(
            s@.subrange(start as int, i as int),
            split_by(s@.skip(i as int), d),
        ) =~= split_by(s@, d));
    }
    while i < n
        invariant
            start <= i <= n,
            n == s@.len(),
            d == (if blanks { blank_pred() } else { sep_pred() }),
            split_by(s@, d) == views_of(acc@) + prepend_first(
                s@.subrange(start as int, i as int),
                split_by(s@.skip(i as int), d),
            ),
        decreases n - i,
    {
        let c = s.get_char(i);
        let hit = if blanks {
            c == ' ' || c == '\t' || c == '\n' || c == '\r'
        } else {
            c == '/'
        };
        proof {
            assert(hit == d(s@[i as int]));
            lemma_split_skip_step(s@, d, i as int);
            lemma_split_by_len(s@.skip(i as int + 1), d);
        }
        let ghost cur = s@.subrange(start as int, i as int);
        let ghost rest = split_by(s@.skip(i as int + 1), d);
        if hit {
            let ghost acc0 = acc@;
            let field = s.substring_char(start, i);
            acc.push(field.to_owned());
            proof {
                assert(acc@ =~= acc0.push(acc@.last()));
                lemma_views_of_push(acc0, acc@.last());
                assert(acc@.last()@ == cur);
                // prepend over a leading empty field closes the current field
                assert(prepend_first(cur, seq![Seq::<char>::empty()] + rest) =~= seq![cur] + rest)
                    by {
                    assert(cur + Seq::<char>::empty() =~= cur);
                    assert((seq![Seq::<char>::empty()] + rest).drop_first() =~= rest);
                };
                lemma_prepend_first_empty(rest);
                assert(s@.subrange(i as int + 1, i as int + 1) =~= Seq::<char>::empty());
                assert(views_of(acc0) + seq![cur] =~= views_of(acc@));
                assert(views_of(acc@) + prepend_first(
                    s@.subrange(i as int + 1, i as int + 1),
                    rest,
                ) =~= split_by(s@, d));
            }
            start = i + 1;
        } else {
            proof {
                assert(prepend_first(cur, prepend_first(seq![s@[i as int]], rest)) =~= prepend_first(
                    s@.subrange(start as int, i as int + 1),
                    rest,
                )) by {
                    assert((seq![seq![s@[i as int]] + rest[0]] + rest.drop_first())[0] == seq![
                        s@[i as int],
                    ] + rest[0]);
                    assert((seq![seq![s@[i as int]] + rest[0]] + rest.drop_first()).drop_first()
                        =~= rest.drop_first());
                    assert(cur + (seq![s@[i as int]] + rest[0]) =~= s@.subrange(
                        start as int,
                        i as int + 1,
                    ) + rest[0]);
                };
            }
        }
        i = i + 1;
    }
    let ghost acc0 = acc@;
    let field = s.substring_char(start, n);
    acc.push(field.to_owned());
    proof {
        assert(acc@ =~= acc0.push(acc@.last()));
        lemma_views_of_push(acc0, acc@.last());
        assert(s@.skip(n as int).len() == 0);
        assert(split_by(s@.skip(n as int), d) == seq![Seq::<char>::empty()]);
        let cur = s@.subrange(start as int, n as int);
        assert(prepend_first(cur, seq![Seq::<char>::empty()]) =~= seq![cur]) by {
            assert(cur + Seq::<char>::empty() =~= cur);
            assert(seq![Seq::<char>::empty()].drop_first() =~= Seq::<Seq<char>>::empty());
        };
        assert(views_of(acc@) =~= split_by(s@, d));
    }
    acc
}

/// The `/`-separated segments of `path`, as owned strings.
pub fn split_path_str(path: &str) -> (r: Vec<String>)
    ensures
        views_of(r@) == split_path(path@),
{
    split_gen(path, false)
}

/// The blank-separated fields of `text`, as owned strings.
pub fn split_blank_str(text: &str) -> (r: Vec<String>)
    ensures
        views_of(r@) == split_blank(text@),
{
    split_gen(text, true)
}

/// `needle` occurs somewhere in `hay` as a contiguous run of characters.
pub open spec fn contains_seq(hay: Seq<char>, needle: Seq<char>) -> bool {
    exists|k: int|
        0 <= k && k + needle.len() <= hay.len() && #[trigger] hay.subrange(
            k,
            k + needle.len() as int,
        ) == needle
}

pub proof fn lemma_contains_trans(a: Seq<char>, b: Seq<char>, c: Seq<char>)
    requires
        contains_seq(a, b),
        contains_seq(b, c),
    ensures
        contains_seq(a, c),
{
    let k1 = choose|k: int|
        0 <= k && k + b.len() <= a.len() && #[trigger] a.subrange(k, k + b.len() as int) == b;
    let k2 = choose|k: int|
        0 <= k && k + c.len() <= b.len() && #[trigger] b.subrange(k, k + c.len() as int) == c;
    assert(a.subrange(k1 + k2, k1 + k2 + c.len() as int) =~= c) by {
        assert forall|m: int| 0 <= m < c.len() implies a[k1 + k2 + m] == c[m] by {
            assert(b[k2 + m] == a.subrange(k1, k1 + b.len() as int)[k2 + m]);
            assert(c[m] == b.subrange(k2, k2 + c.len() as int)[m]);
        }
    };
}

/// A prefix of a string is contained in it.
pub proof fn lemma_prefix_contained(hay: Seq<char>, len: int)
    requires
        0 <= len <= hay.len(),
    ensures
        contains_seq(hay, hay.subrange(0, len)),
{
    assert(0 + hay.subrange(0, len).len() <= hay.len());
}

/// The right half of a concatenation is contained in it.
pub proof fn lemma_suffix_contained(a: Seq<char>, b: Seq<char>)
    ensures
        contains_seq(a + b, b),
{
    assert((a + b).subrange(a.len() as int, a.len() + b.len() as int) =~= b);
}

fn matches_at(hay: &str, needle: &str, k: usize, hn: usize, nn: usize) -> (r: bool)
    requires
        hn == hay@.len(),
        nn == needle@.len(),
        k + nn <= hn,
    ensures
        r == (hay@.subrange(k as int, k as int + needle@.len() as int) == needle@),
{
    let mut j: usize = 0;
    while j < nn
        invariant
            j <= nn,
            hn == hay@.len(),
            nn == needle@.len(),
            k + nn <= hn,
            forall|jj: int| 0 <= jj < j ==> hay@[k + jj] == needle@[jj],
        decreases nn - j,
    {
        if hay.get_char(k + j) != needle.get_char(j) {
            assert(hay@.subrange(k as int, k as int + nn as int)[j as int] != needle@[j as int]);
            return false;
        }
        j = j + 1;
    }
    assert(hay@.subrange(k as int, k as int + nn as int) =~= needle@);
    true
}

/// Whether `needle` occurs in `hay` as a substring.
pub fn contains_str(hay: &str, needle: &str) -> (r: bool)
    ensures
        r == contains_seq(hay@, needle@),
{
    let hn = hay.unicode_len();
    let nn = needle.unicode_len();
    if nn > hn {
        return false;
    }
    if nn == 0 {
        assert(contains_seq(hay@, needle@)) by {
            assert(hay@.subrange(0, 0 + needle@.len() as int) =~= needle@);
        };
        return true;
    }
    let mut k: usize = 0;
    while k <= hn - nn
        invariant
            1 <= nn <= hn,
            hn == hay@.len(),
            nn == needle@.len(),
            k <= hn - nn + 1,
            forall|kk: int|
                0 <= kk < k ==> #[trigger] hay@.subrange(kk, kk + needle@.len() as int)
                    != needle@,
        decreases hn - nn - k + 1,
    {
        if matches_at(hay, needle, k, hn, nn) {
            assert(contains_seq(hay@, needle@));
            return true;
        }
        k = k + 1;
    }
    false
}

/// Whether two string slices hold the same characters.
pub fn str_eq(a: &str, b: &str) -> (r: bool)
    ensures
        r == (a@ == b@),
{
    let an = a.unicode_len();
    let bn = b.unicode_len();
    if an != bn {
        return false;
    }
    let mut j: usize = 0;
    while j < an
        invariant
            j <= an,
            an == a@.len(),
            an == b@.len(),
            forall|jj: int| 0 <= jj < j ==> a@[jj] == b@[jj],
        decreases an - j,
    {
        if a.get_char(j) != b.get_char(j) {
            return false;
        }
        j = j + 1;
    }
    assert(a@ =~= b@);
    true
}

} // verus!
