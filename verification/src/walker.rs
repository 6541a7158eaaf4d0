//! The two-phase walk over a `RootIteratorPackage`.
//!
//! Phase one walks each derived pattern root and emits every entry the
//! combined matcher matches.  Phase two walks each base root and emits the
//! entries that survive pruning and do *not* match — everything matching was
//! already emitted in phase one, which is what keeps any entry from being
//! emitted twice.  Pruning cuts whole subtrees: platform-reserved
//! pseudo-filesystem roots, and every pattern root recorded as fully covered.
//! The no-duplication invariant is between the phases: within phase one, two
//! overlapping pattern roots each walk their own subtree, and an entry both
//! list is emitted once per listing.
//!
//! Reading the directory tree is I/O and stays with the caller: the walk
//! logic here is a function from the raw per-root entry listings to the
//! emitted entry sequence, and the per-entry decision functions let a lazy
//! driver apply the same logic one entry at a time.

use vstd::prelude::*;
use vstd::string::StringExecFns;
use crate::glob_root::chars_of;
use crate::package::{
    glob_set_matches, globset_is_match, pair_views, str_views, RootIteratorPackage,
};

verus! {

/// The platforms whose reserved pseudo-filesystem roots differ.
#[derive(Clone, Copy)]
pub enum Platform {
    Linux,
    Android,
    MacOs,
    Ios,
    Windows,
}

/// The reserved pseudo-filesystem roots of a platform: device, process and
/// kernel virtual filesystem mount points, which a base-root walk never
/// descends into.
pub open spec fn spec_reserved_roots(platform: Platform) -> Seq<Seq<char>> {
    match platform {
        Platform::Linux => seq!["/dev"@, "/proc"@, "/sys"@],
        Platform::Android => seq!["/dev"@, "/proc"@, "/sys"@],
        Platform::MacOs => seq!["/dev"@],
        Platform::Ios => seq!["/dev"@],
        Platform::Windows => Seq::empty(),
    }
}

/// The reserved pseudo-filesystem roots of a platform.
pub fn reserved_roots(platform: Platform) -> (r: Vec<String>)
    ensures
        str_views(r@) == spec_reserved_roots(platform),
{
    match platform {
        Platform::Linux | Platform::Android => {
            let r = vec![
                String::from_str("/dev"),
                String::from_str("/proc"),
                String::from_str("/sys"),
            ];
            proof {
                assert(str_views(r@) =~= spec_reserved_roots(platform));
            }
            r
        },
        Platform::MacOs | Platform::Ios => {
            let r = vec![String::from_str("/dev")];
            proof {
                assert(str_views(r@) =~= spec_reserved_roots(platform));
            }
            r
        },
        Platform::Windows => {
            let r = Vec::new();
            proof {
                assert(str_views(r@) =~= spec_reserved_roots(platform));
            }
            r
        },
    }
}

/// The fully covered pattern roots, in encounter order: the roots whose whole
/// subtree the pattern matches, which phase two may skip entirely.
pub open spec fn spec_skip_roots(pattern_roots: Seq<(Seq<char>, bool)>) -> Seq<Seq<char>>
    decreases pattern_roots.len(),
{
    if pattern_roots.len() == 0 {
        Seq::empty()
    } else {
        spec_skip_roots(pattern_roots.drop_last()) + if pattern_roots.last().1 {
            seq![pattern_roots.last().0]
        } else {
            Seq::<Seq<char>>::empty()
        }
    }
}

/// The fully covered pattern roots of a package, in encounter order.
pub fn skip_roots(pkg: &RootIteratorPackage) -> (r: Vec<String>)
    ensures
        str_views(r@) == spec_skip_roots(pkg.pattern_roots()),
{
    let mut r: Vec<String> = Vec::new();
    let mut i: usize = 0;
    while i < pkg.pattern_paths.len()
        invariant
            i <= pkg.pattern_paths@.len(),
            str_views(r@) == spec_skip_roots(pair_views(pkg.pattern_paths@).take(i as int)),
        decreases pkg.pattern_paths@.len() - i,
    {
        let ghost prev = pair_views(pkg.pattern_paths@).take(i as int);
        let ghost now = pair_views(pkg.pattern_paths@).take(i + 1);
        if pkg.pattern_paths[i].1 {
            r.push(pkg.pattern_paths[i].0.clone());
        }
        proof {
            assert(now.drop_last() =~= prev);
            assert(str_views(r@) =~= spec_skip_roots(now));
        }
        i = i + 1;
    }
    proof {
        assert(pair_views(pkg.pattern_paths@).take(pkg.pattern_paths@.len() as int)
            =~= pair_views(pkg.pattern_paths@));
    }
    r
}

/// A root with its trailing path separator removed; the filesystem root `/`
/// keeps its one separator.  Walked entry paths carry no trailing separator,
/// while a derived pattern root ends with the separator it was cut at, so
/// comparisons go through the trimmed form.
pub open spec fn root_trimmed(root: Seq<char>) -> Seq<char> {
    if root.len() > 1 && root[root.len() - 1] == '/' {
        root.take(root.len() - 1)
    } else {
        root
    }
}

/// Whether path `p` names the root itself, either way of writing it.
pub open spec fn names_root(root: Seq<char>, p: Seq<char>) -> bool {
    p == root || p == root_trimmed(root)
}

/// Whether `p` lies at or below `root`: it names the root itself, or the
/// trimmed root is a proper prefix that ends at a path separator.
pub open spec fn under_root(root: Seq<char>, p: Seq<char>) -> bool {
    let r = root_trimmed(root);
    ||| names_root(root, p)
    ||| (0 < r.len() < p.len() && p.take(r.len() as int) == r && (r[r.len() - 1] == '/'
        || p[r.len() as int] == '/'))
}

/// Whether two character vectors hold the same characters.
fn chars_eq(a: &Vec<char>, b: &Vec<char>) -> (r: bool)
    ensures
        r == (a@ == b@),
{
    if a.len() != b.len() {
        return false;
    }
    let n = a.len();
    let mut i: usize = 0;
    while i < n
        invariant
            i <= n,
            n == a@.len() == b@.len(),
            forall|j: int| 0 <= j < i ==> a@[j] == b@[j],
        decreases n - i,
    {
        if a[i] != b[i] {
            return false;
        }
        i = i + 1;
    }
    proof {
        assert(a@ =~= b@);
    }
    true
}

/// Whether two strings hold the same characters.
pub fn str_eq(a: &str, b: &str) -> (r: bool)
    ensures
        r == (a@ == b@),
{
    let va = chars_of(a);
    let vb = chars_of(b);
    chars_eq(&va, &vb)
}

/// Whether `path` names `root` itself, either way of writing it.
pub fn path_names_root(root: &str, path: &str) -> (r: bool)
    ensures
        r == names_root(root@, path@),
{
    let rv = chars_of(root);
    let pv = chars_of(path);
    let rn = rv.len();
    let rl: usize = if rn > 1 && rv[rn - 1] == '/' {
        rn - 1
    } else {
        rn
    };
    proof {
        assert(root_trimmed(root@) =~= rv@.take(rl as int));
    }
    let eq_full = if pv.len() == rn {
        chars_eq(&pv, &rv)
    } else {
        false
    };
    proof {
        assert(eq_full == (path@ == root@)) by {
            if path@ == root@ {
                assert(path@.len() == root@.len());
            }
        }
    }
    if eq_full {
        return true;
    }
    if rl == rn || pv.len() != rl {
        proof {
            if path@ == root_trimmed(root@) {
                assert(path@.len() == rl);
                if rl == rn {
                    assert(path@ =~= root@);
                }
            }
        }
        return false;
    }
    // the root ends in a separator and the path has the trimmed length
    let mut i: usize = 0;
    while i < rl
        invariant
            i <= rl < rn == rv@.len(),
            rv@ == root@,
            pv@ == path@,
            pv@.len() == rl,
            root_trimmed(root@) == rv@.take(rl as int),
            forall|j: int| 0 <= j < i ==> pv@[j] == rv@[j],
        decreases rl - i,
    {
        if pv[i] != rv[i] {
            proof {
                assert(path@ != root_trimmed(root@)) by {
                    assert(root_trimmed(root@)[i as int] == rv@[i as int]);
                }
                assert(path@ != root@) by {
                    assert(path@.len() != root@.len());
                }
            }
            return false;
        }
        i = i + 1;
    }
    proof {
        assert(path@ =~= root_trimmed(root@));
    }
    true
}

/// Whether `path` lies at or below `root`.
pub fn path_under(root: &str, path: &str) -> (r: bool)
    ensures
        r == under_root(root@, path@),
{
    if path_names_root(root, path) {
        return true;
    }
    let rv = chars_of(root);
    let pv = chars_of(path);
    let rn = rv.len();
    let pn = pv.len();
    let rl: usize = if rn > 1 && rv[rn - 1] == '/' {
        rn - 1
    } else {
        rn
    };
    proof {
        assert(root_trimmed(root@) =~= rv@.take(rl as int));
    }
    if rl == 0 || pn <= rl {
        proof {
            let r = root_trimmed(root@);
            if pn <= rl {
                assert(!(0 < r.len() < path@.len()));
            }
        }
        return false;
    }
    // 0 < rl < pn: prefix check, then the separator condition
    let mut i: usize = 0;
    while i < rl
        invariant
            0 < rl <= rn == rv@.len(),
            rl < pn == pv@.len(),
            i <= rl,
            rv@ == root@,
            pv@ == path@,
            root_trimmed(root@) == rv@.take(rl as int),
            forall|j: int| 0 <= j < i ==> pv@[j] == rv@[j],
        decreases rl - i,
    {
        if pv[i] != rv[i] {
            proof {
                let r = root_trimmed(root@);
                assert(path@.take(rl as int)[i as int] != r[i as int]);
            }
            return false;
        }
        i = i + 1;
    }
    proof {
        assert(path@.take(rl as int) =~= root_trimmed(root@));
    }
    let boundary = rv[rl - 1] == '/' || pv[rl] == '/';
    proof {
        assert(root_trimmed(root@)[rl - 1] == rv@[rl - 1]);
    }
    boundary
}

/// Whether an entry is pruned from a base-root walk: it lies at or below a
/// reserved pseudo-filesystem root or a fully covered pattern root.
pub open spec fn spec_pruned(p: Seq<char>, reserved: Seq<Seq<char>>, skip: Seq<Seq<char>>) -> bool {
    ||| exists|i: int| 0 <= i < reserved.len() && under_root(reserved[i], p)
    ||| exists|i: int| 0 <= i < skip.len() && under_root(skip[i], p)
}

/// Whether any root in the list has `path` at or below it.
fn any_root_over(roots: &Vec<String>, path: &str) -> (r: bool)
    ensures
        r == exists|i: int|
            0 <= i < roots@.len() && under_root(str_views(roots@)[i], path@),
{
    let mut i: usize = 0;
    while i < roots.len()
        invariant
            i <= roots@.len(),
            forall|j: int| 0 <= j < i ==> !under_root(str_views(roots@)[j], path@),
        decreases roots@.len() - i,
    {
        if path_under(roots[i].as_str(), path) {
            proof {
                assert(under_root(str_views(roots@)[i as int], path@));
            }
            return true;
        }
        i = i + 1;
    }
    false
}

/// Whether an entry is pruned from a base-root walk.
pub fn is_pruned(path: &str, reserved: &Vec<String>, skip: &Vec<String>) -> (r: bool)
    ensures
        r == spec_pruned(path@, str_views(reserved@), str_views(skip@)),
{
    let over_reserved = any_root_over(reserved, path);
    let over_skip = any_root_over(skip, path);
    over_reserved || over_skip
}

/// The per-entry descend decision of a lazy base-root walk: a walker stops at
/// an entry whose path names a reserved root or a fully covered pattern root,
/// which prunes that entry's whole subtree.
pub fn phase2_descends(path: &str, reserved: &Vec<String>, skip: &Vec<String>) -> (r: bool)
    ensures
        r == (!(exists|i: int|
            0 <= i < reserved@.len() && names_root(str_views(reserved@)[i], path@)) && !(
        exists|i: int| 0 <= i < skip@.len() && names_root(str_views(skip@)[i], path@))),
{
    let at_reserved = any_root_named(reserved, path);
    let at_skip = any_root_named(skip, path);
    !at_reserved && !at_skip
}

/// Whether the path names any root in the list.
fn any_root_named(roots: &Vec<String>, path: &str) -> (r: bool)
    ensures
        r == exists|i: int|
            0 <= i < roots@.len() && names_root(str_views(roots@)[i], path@),
{
    let mut i: usize = 0;
    while i < roots.len()
        invariant
            i <= roots@.len(),
            forall|j: int| 0 <= j < i ==> !names_root(str_views(roots@)[j], path@),
        decreases roots@.len() - i,
    {
        if path_names_root(roots[i].as_str(), path) {
            proof {
                assert(names_root(str_views(roots@)[i as int], path@));
            }
            return true;
        }
        i = i + 1;
    }
    false
}

/// Whether the combined matcher of the package matches a path.
pub fn matches_path(pkg: &RootIteratorPackage, path: &str) -> (r: bool)
    ensures
        r == glob_set_matches(pkg.patterns(), path@),
{
    globset_is_match(&pkg.globset, path)
}

/// Whether a base-root walk emits an entry: it survives pruning and the
/// matcher does not match it (a matching entry was already emitted by the
/// pattern-rooted phase).
pub open spec fn phase2_emits(
    patterns: Seq<Seq<char>>,
    reserved: Seq<Seq<char>>,
    skip: Seq<Seq<char>>,
    p: Seq<char>,
) -> bool {
    !spec_pruned(p, reserved, skip) && !glob_set_matches(patterns, p)
}

/// The entries of one pattern-root listing that the matcher matches, in
/// listing order.
pub open spec fn filter_matching(patterns: Seq<Seq<char>>, entries: Seq<Seq<char>>) -> Seq<
    Seq<char>,
>
    decreases entries.len(),
{
    if entries.len() == 0 {
        Seq::empty()
    } else {
        filter_matching(patterns, entries.drop_last()) + if glob_set_matches(
            patterns,
            entries.last(),
        ) {
            seq![entries.last()]
        } else {
            Seq::<Seq<char>>::empty()
        }
    }
}

/// The entries of one base-root listing that a base-root walk emits, in
/// listing order.
pub open spec fn filter_base(
    patterns: Seq<Seq<char>>,
    reserved: Seq<Seq<char>>,
    skip: Seq<Seq<char>>,
    entries: Seq<Seq<char>>,
) -> Seq<Seq<char>>
    decreases entries.len(),
{
    if entries.len() == 0 {
        Seq::empty()
    } else {
        filter_base(patterns, reserved, skip, entries.drop_last()) + if phase2_emits(
            patterns,
            reserved,
            skip,
            entries.last(),
        ) {
            seq![entries.last()]
        } else {
            Seq::<Seq<char>>::empty()
        }
    }
}

/// The views of a list of entry listings.
pub open spec fn listing_views(listings: Seq<Vec<String>>) -> Seq<Seq<Seq<char>>> {
    listings.map_values(|l: Vec<String>| str_views(l@))
}

/// Everything the pattern-rooted phase emits, listing by listing.
pub open spec fn phase1_all(patterns: Seq<Seq<char>>, listings: Seq<Seq<Seq<char>>>) -> Seq<
    Seq<char>,
>
    decreases listings.len(),
{
    if listings.len() == 0 {
        Seq::empty()
    } else {
        phase1_all(patterns, listings.drop_last()) + filter_matching(patterns, listings.last())
    }
}

/// Everything the base-root phase emits, listing by listing.
pub open spec fn phase2_all(
    patterns: Seq<Seq<char>>,
    reserved: Seq<Seq<char>>,
    skip: Seq<Seq<char>>,
    listings: Seq<Seq<Seq<char>>>,
) -> Seq<Seq<char>>
    decreases listings.len(),
{
    if listings.len() == 0 {
        Seq::empty()
    } else {
        phase2_all(patterns, reserved, skip, listings.drop_last()) + filter_base(
            patterns,
            reserved,
            skip,
            listings.last(),
        )
    }
}

/// The whole walk: the pattern-rooted phase over the pattern-root listings,
/// then the base-root phase over the base-root listings.
pub open spec fn spec_root_iterator(
    patterns: Seq<Seq<char>>,
    pattern_roots: Seq<(Seq<char>, bool)>,
    reserved: Seq<Seq<char>>,
    pattern_listings: Seq<Seq<Seq<char>>>,
    base_listings: Seq<Seq<Seq<char>>>,
) -> Seq<Seq<char>> {
    phase1_all(patterns, pattern_listings) + phase2_all(
        patterns,
        reserved,
        spec_skip_roots(pattern_roots),
        base_listings,
    )
}

/// The two-phase walk as a function on entry listings: `pattern_listings`
/// holds the raw recursive listing below each derived pattern root, in
/// package order, and `base_listings` the raw listing below each base root.
/// Emits the matching entries of each pattern root, then the unmatched,
/// unpruned entries of each base root.
pub fn root_iterator(
    pkg: &RootIteratorPackage,
    platform: Platform,
    pattern_listings: &Vec<Vec<String>>,
    base_listings: &Vec<Vec<String>>,
) -> (r: Vec<String>)
    ensures
        str_views(r@) == spec_root_iterator(
            pkg.patterns(),
            pkg.pattern_roots(),
            spec_reserved_roots(platform),
            listing_views(pattern_listings@),
            listing_views(base_listings@),
        ),
{
    let reserved = reserved_roots(platform);
    let skip = skip_roots(pkg);
    let ghost pats = pkg.patterns();
    let ghost res_v = spec_reserved_roots(platform);
    let ghost skip_v = spec_skip_roots(pkg.pattern_roots());
    let mut out: Vec<String> = Vec::new();

    let mut i: usize = 0;
    while i < pattern_listings.len()
        invariant
            i <= pattern_listings@.len(),
            pats == pkg.patterns(),
            str_views(out@) == phase1_all(pats, listing_views(pattern_listings@).take(i as int)),
        decreases pattern_listings@.len() - i,
    {
        let listing = &pattern_listings[i];
        let mut k: usize = 0;
        while k < listing.len()
            invariant
                k <= listing@.len(),
                pats == pkg.patterns(),
                listing == &pattern_listings@[i as int],
                i < pattern_listings@.len(),
                str_views(out@) == phase1_all(
                    pats,
                    listing_views(pattern_listings@).take(i as int),
                ) + filter_matching(pats, str_views(listing@).take(k as int)),
            decreases listing@.len() - k,
        {
            let ghost prev = str_views(listing@).take(k as int);
            let ghost now = str_views(listing@).take(k + 1);
            let ghost out_before = out@;
            if matches_path(pkg, listing[k].as_str()) {
                out.push(listing[k].clone());
                proof {
                    assert(str_views(out@) =~= str_views(out_before).push(listing@[k as int]@));
                }
            }
            proof {
                assert(now.drop_last() =~= prev);
                assert(now.last() == listing@[k as int]@);
                assert(filter_matching(pats, now) == filter_matching(pats, prev)
                    + if glob_set_matches(pats, listing@[k as int]@) {
                    seq![listing@[k as int]@]
                } else {
                    Seq::<Seq<char>>::empty()
                });
                assert(str_views(out@) =~= phase1_all(
                    pats,
                    listing_views(pattern_listings@).take(i as int),
                ) + filter_matching(pats, now));
            }
            k = k + 1;
        }
        proof {
            let lv = listing_views(pattern_listings@);
            assert(str_views(listing@).take(listing@.len() as int) =~= str_views(listing@));
            assert(lv.take(i + 1).drop_last() =~= lv.take(i as int));
            assert(lv.take(i + 1).last() == str_views(listing@));
            assert(str_views(out@) =~= phase1_all(pats, lv.take(i + 1)));
        }
        i = i + 1;
    }
    proof {
        let lv = listing_views(pattern_listings@);
        assert(lv.take(pattern_listings@.len() as int) =~= lv);
    }
    let ghost phase1_done = str_views(out@);

    let mut i2: usize = 0;
    while i2 < base_listings.len()
        invariant
            i2 <= base_listings@.len(),
            pats == pkg.patterns(),
            res_v == str_views(reserved@),
            skip_v == str_views(skip@),
            phase1_done == phase1_all(pats, listing_views(pattern_listings@)),
            str_views(out@) == phase1_done + phase2_all(
                pats,
                res_v,
                skip_v,
                listing_views(base_listings@).take(i2 as int),
            ),
        decreases base_listings@.len() - i2,
    {
        let listing = &base_listings[i2];
        let mut k: usize = 0;
        while k < listing.len()
            invariant
                k <= listing@.len(),
                pats == pkg.patterns(),
                res_v == str_views(reserved@),
                skip_v == str_views(skip@),
                listing == &base_listings@[i2 as int],
                i2 < base_listings@.len(),
                str_views(out@) == phase1_done + phase2_all(
                    pats,
                    res_v,
                    skip_v,
                    listing_views(base_listings@).take(i2 as int),
                ) + filter_base(pats, res_v, skip_v, str_views(listing@).take(k as int)),
            decreases listing@.len() - k,
        {
            let ghost prev = str_views(listing@).take(k as int);
            let ghost now = str_views(listing@).take(k + 1);
            let ghost out_before = out@;
            let entry = listing[k].as_str();
            let pruned = is_pruned(entry, &reserved, &skip);
            if !pruned && !matches_path(pkg, entry) {
                out.push(listing[k].clone());
                proof {
                    assert(str_views(out@) =~= str_views(out_before).push(listing@[k as int]@));
                }
            }
            proof {
                assert(now.drop_last() =~= prev);
                assert(now.last() == listing@[k as int]@);
                assert(filter_base(pats, res_v, skip_v, now) == filter_base(
                    pats,
                    res_v,
                    skip_v,
                    prev,
                ) + if phase2_emits(pats, res_v, skip_v, listing@[k as int]@) {
                    seq![listing@[k as int]@]
                } else {
                    Seq::<Seq<char>>::empty()
                });
                assert(str_views(out@) =~= phase1_done + phase2_all(
                    pats,
                    res_v,
                    skip_v,
                    listing_views(base_listings@).take(i2 as int),
                ) + filter_base(pats, res_v, skip_v, now));
            }
            k = k + 1;
        }
        proof {
            let lv = listing_views(base_listings@);
            assert(str_views(listing@).take(listing@.len() as int) =~= str_views(listing@));
            assert(lv.take(i2 + 1).drop_last() =~= lv.take(i2 as int));
            assert(lv.take(i2 + 1).last() == str_views(listing@));
            assert(str_views(out@) =~= phase1_done + phase2_all(pats, res_v, skip_v, lv.take(
                i2 + 1,
            )));
        }
        i2 = i2 + 1;
    }
    proof {
        let lv = listing_views(base_listings@);
        assert(lv.take(base_listings@.len() as int) =~= lv);
    }
    out
}

/// A pruned entry is never emitted by the base-root phase.
proof fn lemma_pruned_not_emitted(
    patterns: Seq<Seq<char>>,
    reserved: Seq<Seq<char>>,
    skip: Seq<Seq<char>>,
    entries: Seq<Seq<char>>,
    p: Seq<char>,
)
    requires
        spec_pruned(p, reserved, skip),
    ensures
        !filter_base(patterns, reserved, skip, entries).contains(p),
    decreases entries.len(),
{
    if entries.len() > 0 {
        lemma_pruned_not_emitted(patterns, reserved, skip, entries.drop_last(), p);
        let f = filter_base(patterns, reserved, skip, entries);
        let fd = filter_base(patterns, reserved, skip, entries.drop_last());
        if f.contains(p) {
            let i = choose|i: int| 0 <= i < f.len() && f[i] == p;
            if i < fd.len() {
                assert(fd[i] == p);
            } else {
                assert(f[i] == entries.last());
                assert(!phase2_emits(patterns, reserved, skip, p));
            }
        }
    }
}

/// An entry the combined matcher matches is never emitted by the base-root
/// phase: what the pattern-rooted phase emitted cannot be emitted again.
pub proof fn lemma_no_duplicate_emission(
    patterns: Seq<Seq<char>>,
    reserved: Seq<Seq<char>>,
    skip: Seq<Seq<char>>,
    entries: Seq<Seq<char>>,
    p: Seq<char>,
)
    requires
        glob_set_matches(patterns, p),
    ensures
        !filter_base(patterns, reserved, skip, entries).contains(p),
    decreases entries.len(),
{
    if entries.len() > 0 {
        lemma_no_duplicate_emission(patterns, reserved, skip, entries.drop_last(), p);
        let f = filter_base(patterns, reserved, skip, entries);
        let fd = filter_base(patterns, reserved, skip, entries.drop_last());
        if f.contains(p) {
            let i = choose|i: int| 0 <= i < f.len() && f[i] == p;
            if i < fd.len() {
                assert(fd[i] == p);
            } else {
                assert(f[i] == entries.last());
                assert(!phase2_emits(patterns, reserved, skip, p));
            }
        }
    }
}

/// An entry at or below a fully covered pattern root is never emitted by the
/// base-root phase, whatever the matcher says of it.
pub proof fn lemma_fully_covered_skipped(
    patterns: Seq<Seq<char>>,
    reserved: Seq<Seq<char>>,
    skip: Seq<Seq<char>>,
    base_listings: Seq<Seq<Seq<char>>>,
    p: Seq<char>,
    i: int,
)
    requires
        0 <= i < skip.len(),
        under_root(skip[i], p),
    ensures
        !phase2_all(patterns, reserved, skip, base_listings).contains(p),
{
    lemma_phase2_all_excludes(patterns, reserved, skip, base_listings, p);
}

/// Nothing the whole base-root phase emits is an entry the matcher matches
/// or an entry that is pruned.
proof fn lemma_phase2_all_excludes(
    patterns: Seq<Seq<char>>,
    reserved: Seq<Seq<char>>,
    skip: Seq<Seq<char>>,
    listings: Seq<Seq<Seq<char>>>,
    p: Seq<char>,
)
    requires
        glob_set_matches(patterns, p) || spec_pruned(p, reserved, skip),
    ensures
        !phase2_all(patterns, reserved, skip, listings).contains(p),
    decreases listings.len(),
{
    if listings.len() > 0 {
        lemma_phase2_all_excludes(patterns, reserved, skip, listings.drop_last(), p);
        if glob_set_matches(patterns, p) {
            lemma_no_duplicate_emission(patterns, reserved, skip, listings.last(), p);
        } else {
            lemma_pruned_not_emitted(patterns, reserved, skip, listings.last(), p);
        }
        let whole = phase2_all(patterns, reserved, skip, listings);
        let front = phase2_all(patterns, reserved, skip, listings.drop_last());
        let back = filter_base(patterns, reserved, skip, listings.last());
        if whole.contains(p) {
            let i = choose|i: int| 0 <= i < whole.len() && whole[i] == p;
            if i < front.len() {
                assert(front[i] == p);
            } else {
                assert(back[i - front.len()] == p);
            }
        }
    }
}

/// An entry the combined matcher matches is emitted by the pattern-rooted
/// phase alone: every occurrence of it in the whole walk lies in the
/// pattern-rooted prefix of the output.  So a file reachable both below a
/// fully covered pattern root and below a base root comes out exactly once —
/// once from the pattern-rooted walk that matched it, never again from the
/// base-root walk.
pub proof fn lemma_matched_entry_emitted_once(
    patterns: Seq<Seq<char>>,
    pattern_roots: Seq<(Seq<char>, bool)>,
    reserved: Seq<Seq<char>>,
    pattern_listings: Seq<Seq<Seq<char>>>,
    base_listings: Seq<Seq<Seq<char>>>,
    p: Seq<char>,
)
    requires
        glob_set_matches(patterns, p),
    ensures
        ({
            let out = spec_root_iterator(
                patterns,
                pattern_roots,
                reserved,
                pattern_listings,
                base_listings,
            );
            let ph1 = phase1_all(patterns, pattern_listings);
            &&& out.len() == ph1.len() + phase2_all(
                patterns,
                reserved,
                spec_skip_roots(pattern_roots),
                base_listings,
            ).len()
            &&& forall|i: int| 0 <= i < out.len() && out[i] == p ==> i < ph1.len() && ph1[i] == p
        }),
{
    let skip = spec_skip_roots(pattern_roots);
    lemma_phase2_all_excludes(patterns, reserved, skip, base_listings, p);
    let out = spec_root_iterator(patterns, pattern_roots, reserved, pattern_listings, base_listings);
    let ph1 = phase1_all(patterns, pattern_listings);
    let ph2 = phase2_all(patterns, reserved, skip, base_listings);
    assert forall|i: int| 0 <= i < out.len() && out[i] == p implies i < ph1.len() && ph1[i]
        == p by {
        if i >= ph1.len() {
            assert(ph2[i - ph1.len()] == p);
            assert(ph2.contains(p));
        }
    }
}

/// A base-root walk never emits an entry at or below a reserved
/// pseudo-filesystem root.
pub proof fn lemma_platform_pruning(
    patterns: Seq<Seq<char>>,
    reserved: Seq<Seq<char>>,
    skip: Seq<Seq<char>>,
    base_listings: Seq<Seq<Seq<char>>>,
    p: Seq<char>,
    i: int,
)
    requires
        0 <= i < reserved.len(),
        under_root(reserved[i], p),
    ensures
        !phase2_all(patterns, reserved, skip, base_listings).contains(p),
{
    lemma_phase2_all_excludes(patterns, reserved, skip, base_listings, p);
}

} // verus!
