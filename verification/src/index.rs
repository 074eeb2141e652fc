//! The tag index: grouping listed directory entries under the tag roots their
//! paths contain.

use vstd::prelude::*;

use crate::segments::contains_seq;
use crate::segments::contains_str;
use crate::segments::lemma_contains_trans;
use crate::segments::str_eq;
use crate::segments::views_of;
use crate::tags::find_valid_tag_name;
use crate::tags::lemma_tag_root_contains_tags;
use crate::tags::tag_root_of;

verus! {

/// What a listing entry is: a file or a directory.
#[derive(Clone, Copy, PartialEq, Eq, Structural, Debug)]
pub enum PathKind {
    File,
    Dir,
}

/// One item of the recursive repository listing: its path relative to the
/// scanned root, its kind, and the author of its last commit.
#[derive(Debug)]
pub struct ListingEntry {
    pub name: String,
    pub kind: PathKind,
    pub author: String,
}

/// A full repository path: the scan root, a separator, and a relative name.
pub open spec fn full_path_spec(root: Seq<char>, name: Seq<char>) -> Seq<char> {
    root + seq!['/'] + name
}

/// The full path of entry `i` of the listing.
pub open spec fn entry_full(root: Seq<char>, l: Seq<ListingEntry>, i: int) -> Seq<char> {
    full_path_spec(root, l[i].name@)
}

/// An entry the index considers at all: a directory whose full path contains
/// "tags" somewhere in its text.
pub open spec fn is_tag_candidate(root: Seq<char>, l: Seq<ListingEntry>, i: int) -> bool {
    l[i].kind is Dir && contains_seq(entry_full(root, l, i), "tags"@)
}

/// Entry `j` registers `r` as a tag root.
pub open spec fn defines_root(root: Seq<char>, l: Seq<ListingEntry>, j: int, r: Seq<char>) -> bool {
    is_tag_candidate(root, l, j) && tag_root_of(entry_full(root, l, j)) == Some(r)
}

/// Entry `i` belongs to tag root `r`: it is a candidate whose full path
/// contains `r` as a substring, wherever in the listing `r` was registered.
/// The containment is textual, not a path-prefix test, so it can also catch
/// paths that are not descendants of the root.
pub open spec fn is_member(root: Seq<char>, l: Seq<ListingEntry>, r: Seq<char>, i: int) -> bool {
    is_tag_candidate(root, l, i) && contains_seq(entry_full(root, l, i), r)
}

/// The tag roots registered by the first `n` entries, in the order of first
/// registration, each once.
pub open spec fn keys_upto(root: Seq<char>, l: Seq<ListingEntry>, n: int) -> Seq<Seq<char>>
    decreases n,
{
    if n <= 0 {
        Seq::empty()
    } else {
        let prev = keys_upto(root, l, n - 1);
        if is_tag_candidate(root, l, n - 1) && tag_root_of(entry_full(root, l, n - 1)) is Some {
            let r = tag_root_of(entry_full(root, l, n - 1))->Some_0;
            if prev.contains(r) {
                prev
            } else {
                prev.push(r)
            }
        } else {
            prev
        }
    }
}

/// All tag roots the listing registers, in order of first registration.
pub open spec fn index_keys(root: Seq<char>, l: Seq<ListingEntry>) -> Seq<Seq<char>> {
    keys_upto(root, l, l.len() as int)
}

/// The member indices of root `r` among the first `n` entries, ascending.
pub open spec fn members_upto(root: Seq<char>, l: Seq<ListingEntry>, r: Seq<char>, n: int) -> Seq<
    usize,
>
    decreases n,
{
    if n <= 0 {
        Seq::empty()
    } else if is_member(root, l, r, n - 1) {
        members_upto(root, l, r, n - 1).push((n - 1) as usize)
    } else {
        members_upto(root, l, r, n - 1)
    }
}

/// All member indices of root `r`, ascending.
pub open spec fn members_of(root: Seq<char>, l: Seq<ListingEntry>, r: Seq<char>) -> Seq<usize> {
    members_upto(root, l, r, l.len() as int)
}

/// A root stands among the first `n` keys exactly when one of the first `n`
/// entries registers it.
pub proof fn lemma_keys_upto_contains(root: Seq<char>, l: Seq<ListingEntry>, n: int, r: Seq<char>)
    requires
        0 <= n,
    ensures
        keys_upto(root, l, n).contains(r) <==> exists|j: int|
            0 <= j < n && defines_root(root, l, j, r),
    decreases n,
{
    if n > 0 {
        lemma_keys_upto_contains(root, l, n - 1, r);
        let prev = keys_upto(root, l, n - 1);
        if is_tag_candidate(root, l, n - 1) && tag_root_of(entry_full(root, l, n - 1)) is Some {
            let r0 = tag_root_of(entry_full(root, l, n - 1))->Some_0;
            assert(defines_root(root, l, n - 1, r0));
            if !prev.contains(r0) {
                if r == r0 {
                    assert(prev.push(r0)[prev.len() as int] == r0);
                } else {
                    assert(forall|w: int|
                        0 <= w < prev.len() ==> prev.push(r0)[w] == prev[w]);
                    if prev.push(r0).contains(r) {
                        let w = choose|w: int|
                            0 <= w < prev.push(r0).len() && prev.push(r0)[w] == r;
                        assert(prev[w] == r);
                    }
                }
            }
        }
    }
}

/// A member index stays recorded as the scan continues.
proof fn lemma_members_upto_complete(
    root: Seq<char>,
    l: Seq<ListingEntry>,
    r: Seq<char>,
    i: int,
    n: int,
)
    requires
        0 <= i < n,
        is_member(root, l, r, i),
    ensures
        members_upto(root, l, r, n).contains(i as usize),
    decreases n,
{
    if i == n - 1 {
        let prev = members_upto(root, l, r, n - 1);
        assert(prev.push((n - 1) as usize)[prev.len() as int] == (n - 1) as usize);
    } else {
        lemma_members_upto_complete(root, l, r, i, n - 1);
        let prev = members_upto(root, l, r, n - 1);
        let w = choose|w: int| 0 <= w < prev.len() && prev[w] == i as usize;
        if is_member(root, l, r, n - 1) {
            assert(prev.push((n - 1) as usize)[w] == i as usize);
        }
    }
}

proof fn lemma_members_upto_bounds(
    root: Seq<char>,
    l: Seq<ListingEntry>,
    r: Seq<char>,
    n: int,
)
    requires
        0 <= n <= l.len(),
        n <= usize::MAX,
    ensures
        forall|w: int|
            0 <= w < members_upto(root, l, r, n).len() ==> (#[trigger] members_upto(
                root,
                l,
                r,
                n,
            )[w]) < n && l[members_upto(root, l, r, n)[w] as int].kind is Dir,
    decreases n,
{
    if n > 0 {
        lemma_members_upto_bounds(root, l, r, n - 1);
        let prev = members_upto(root, l, r, n - 1);
        if is_member(root, l, r, n - 1) {
            assert forall|w: int|
                0 <= w < prev.push((n - 1) as usize).len() implies (#[trigger] prev.push(
                (n - 1) as usize,
            )[w]) < n && l[prev.push((n - 1) as usize)[w] as int].kind is Dir by {
                if w < prev.len() {
                    assert(prev.push((n - 1) as usize)[w] == prev[w]);
                } else {
                    assert(prev.push((n - 1) as usize)[w] == (n - 1) as usize);
                }
            }
        }
    }
}

/// Every recorded member lies inside the listing and is a directory entry.
pub proof fn lemma_members_are_directories(root: Seq<char>, l: Seq<ListingEntry>, r: Seq<char>)
    requires
        l.len() <= usize::MAX,
    ensures
        forall|w: int|
            0 <= w < members_of(root, l, r).len() ==> (#[trigger] members_of(root, l, r)[w])
                < l.len() && l[members_of(root, l, r)[w] as int].kind is Dir,
{
    lemma_members_upto_bounds(root, l, r, l.len() as int);
}

/// Containment: an entry whose full path textually contains a registered tag
/// root is recorded among that root's members, wherever in the listing the
/// registering entry stands. The test is substring containment, so it also
/// admits entries that merely contain the root's text without lying beneath
/// it.
pub proof fn lemma_contained_entry_is_member(
    root: Seq<char>,
    l: Seq<ListingEntry>,
    r: Seq<char>,
    i: int,
)
    requires
        0 <= i < l.len(),
        l[i].kind is Dir,
        contains_seq(entry_full(root, l, i), r),
        exists|j: int| 0 <= j < l.len() && defines_root(root, l, j, r),
    ensures
        members_of(root, l, r).contains(i as usize),
{
    let j = choose|j: int| 0 <= j < l.len() && defines_root(root, l, j, r);
    lemma_tag_root_contains_tags(entry_full(root, l, j), r);
    lemma_contains_trans(entry_full(root, l, i), r, "tags"@);
    assert(is_member(root, l, r, i));
    lemma_members_upto_complete(root, l, r, i, l.len() as int);
}

/// The full repository path of a listed name below the scan root.
pub fn full_path(root: &str, name: &str) -> (r: String)
    ensures
        r@ == full_path_spec(root@, name@),
{
    let mut out = root.to_owned();
    out.append("/");
    out.append(name);
    proof {
        reveal_strlit("/");
        assert("/"@ =~= seq!['/']);
        assert(out@ =~= full_path_spec(root@, name@));
    }
    out
}

/// Whether one of the collected keys already holds the characters of `s`.
fn has_string(keys: &Vec<String>, s: &str) -> (r: bool)
    ensures
        r == views_of(keys@).contains(s@),
{
    let mut t: usize = 0;
    while t < keys.len()
        invariant
            t <= keys@.len(),
            forall|u: int| 0 <= u < t ==> views_of(keys@)[u] != s@,
        decreases keys@.len() - t,
    {
        if str_eq(keys[t].as_str(), s) {
            assert(views_of(keys@)[t as int] == s@);
            return true;
        }
        t = t + 1;
    }
    assert(!views_of(keys@).contains(s@));
    false
}

/// The member indices of `key` in listing order: every candidate whose full
/// path contains the key's text.
fn collect_members(listing: &Vec<ListingEntry>, path: &str, key: &str) -> (r: Vec<usize>)
    ensures
        r@ == members_of(path@, listing@, key@),
{
    let mut mem: Vec<usize> = Vec::new();
    let mut i: usize = 0;
    while i < listing.len()
        invariant
            i <= listing@.len(),
            mem@ == members_upto(path@, listing@, key@, i as int),
        decreases listing@.len() - i,
    {
        let e = &listing[i];
        if e.kind == PathKind::Dir {
            let fp = full_path(path, &e.name);
            if contains_str(fp.as_str(), "tags") {
                assert(is_tag_candidate(path@, listing@, i as int));
                if contains_str(fp.as_str(), key) {
                    mem.push(i);
                    assert(is_member(path@, listing@, key@, i as int));
                } else {
                    assert(!is_member(path@, listing@, key@, i as int));
                }
            } else {
                assert(!is_member(path@, listing@, key@, i as int));
            }
        } else {
            assert(!is_member(path@, listing@, key@, i as int));
        }
        i = i + 1;
    }
    mem
}

/// Builds the tag index of a listing: every tag root that some directory
/// entry derives, keyed in order of first registration, each with the indices
/// of the directory entries whose full path contains that root.
pub fn get_tags_map(listing: &Vec<ListingEntry>, path: &str) -> (r: Vec<(String, Vec<usize>)>)
    ensures
        r@.len() == index_keys(path@, listing@).len(),
        forall|t: int| 0 <= t < r@.len() ==> r@[t].0@ == index_keys(path@, listing@)[t],
        forall|t: int|
            0 <= t < r@.len() ==> r@[t].1@ == members_of(path@, listing@, r@[t].0@),
{
    let ghost lv = listing@;
    let mut keys: Vec<String> = Vec::new();
    let mut i: usize = 0;
    while i < listing.len()
        invariant
            i <= lv.len(),
            lv == listing@,
            views_of(keys@) == keys_upto(path@, lv, i as int),
        decreases lv.len() - i,
    {
        let e = &listing[i];
        if e.kind == PathKind::Dir {
            let fp = full_path(path, &e.name);
            if contains_str(fp.as_str(), "tags") {
                match find_valid_tag_name(fp.as_str()) {
                    Some(root) => {
                        if !has_string(&keys, root.as_str()) {
                            let ghost keys0 = keys@;
                            keys.push(root);
                            proof {
                                assert(views_of(keys@) =~= views_of(keys0).push(
                                    keys@.last()@,
                                ));
                            }
                        }
                    },
                    None => {},
                }
            } else {
                assert(!is_tag_candidate(path@, lv, i as int));
            }
        } else {
            assert(!is_tag_candidate(path@, lv, i as int));
        }
        i = i + 1;
    }
    let mut result: Vec<(String, Vec<usize>)> = Vec::new();
    let mut t: usize = 0;
    while t < keys.len()
        invariant
            t <= keys@.len(),
            lv == listing@,
            views_of(keys@) == index_keys(path@, lv),
            result@.len() == t,
            forall|u: int| 0 <= u < t ==> #[trigger] result@[u].0@ == views_of(keys@)[u],
            forall|u: int|
                0 <= u < t ==> #[trigger] result@[u].1@ == members_of(path@, lv, result@[u].0@),
        decreases keys@.len() - t,
    {
        let key = keys[t].clone();
        let mem = collect_members(listing, path, key.as_str());
        result.push((key, mem));
        t = t + 1;
    }
    result
}

} // verus!
