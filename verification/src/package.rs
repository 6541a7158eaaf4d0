//! Building a `RootIteratorPackage`: every pattern is compiled into one
//! combined matcher, and the roots derived from the patterns are collected,
//! deduplicated by exact equality, in encounter order.

use vstd::prelude::*;
use crate::glob_root::{derived_root, root_parser};

verus! {

// ---------------------------------------------------------------------------
// Trusted view of the globset crate.
// ---------------------------------------------------------------------------
#[verifier::external_type_specification]
#[verifier::external_body]
pub struct ExGlob(globset::Glob);

#[verifier::external_type_specification]
#[verifier::external_body]
pub struct ExGlobSet(globset::GlobSet);

#[verifier::external_type_specification]
#[verifier::external_body]
pub struct ExGlobSetBuilder(globset::GlobSetBuilder);

/// Whether a pattern text compiles as a glob.  Compilation is a function of
/// the text alone: the one option this library sets, keeping `*` from
/// crossing separators, is fixed in the wrapper that compiles.
pub uninterp spec fn glob_compiles(pattern: Seq<char>) -> bool;

/// Whether a list of compiled pattern texts builds into one combined matcher.
pub uninterp spec fn glob_set_compiles(patterns: Seq<Seq<char>>) -> bool;

/// The pattern text a compiled glob was built from.  Every glob the library
/// compiles keeps `*` from crossing separators, so the text names the glob's
/// behaviour completely.
pub uninterp spec fn glob_pattern(g: globset::Glob) -> Seq<char>;

/// The pattern texts a set builder holds, in insertion order.
pub uninterp spec fn builder_patterns(b: globset::GlobSetBuilder) -> Seq<Seq<char>>;

/// The pattern texts a compiled set was built from, in insertion order.
pub uninterp spec fn globset_patterns(gs: globset::GlobSet) -> Seq<Seq<char>>;

/// Whether a set of glob patterns matches a path, under non-recursive
/// separator semantics: `*` does not cross a path separator, `**` does.
/// This reads the pattern texts as globs compiled the one way this library
/// compiles them, with `*` kept from crossing separators; a set built
/// elsewhere with other options is outside this reading.
pub uninterp spec fn glob_set_matches(patterns: Seq<Seq<char>>, path: Seq<char>) -> bool;

/// Relies on globset's `GlobBuilder::new(pattern).literal_separator(true)
/// .build()`: compiles one pattern text, with `*` kept from crossing
/// separators; it fails exactly on a malformed pattern, a property of the
/// text alone.
#[verifier::external_body]
fn compile_glob(pattern: &str) -> (r: Result<globset::Glob, String>)
    ensures
        r is Ok <==> glob_compiles(pattern@),
        r matches Ok(g) ==> glob_pattern(g) == pattern@,
{
    match globset::GlobBuilder::new(pattern).literal_separator(true).build() {
        Ok(g) => Ok(g),
        Err(e) => Err(e.to_string()),
    }
}

/// Relies on globset's `GlobSetBuilder::new`: a fresh builder holds no
/// patterns.
#[verifier::external_body]
fn globset_builder_new() -> (r: globset::GlobSetBuilder)
    ensures
        builder_patterns(r) == Seq::<Seq<char>>::empty(),
{
    globset::GlobSetBuilder::new()
}

/// Relies on globset's `GlobSetBuilder::add`: appends one compiled glob to
/// the set being built.
#[verifier::external_body]
fn globset_builder_add(b: &mut globset::GlobSetBuilder, g: globset::Glob)
    ensures
        builder_patterns(*final(b)) == builder_patterns(*old(b)).push(glob_pattern(g)),
{
    b.add(g);
}

/// Relies on globset's `GlobSetBuilder::build`: the compiled set matches with
/// exactly the patterns that were added; whether the added globs combine into
/// one matcher is a property of their texts alone.
#[verifier::external_body]
fn globset_build(b: &globset::GlobSetBuilder) -> (r: Result<globset::GlobSet, String>)
    ensures
        r is Ok <==> glob_set_compiles(builder_patterns(*b)),
        r matches Ok(gs) ==> globset_patterns(gs) == builder_patterns(*b),
{
    match b.build() {
        Ok(gs) => Ok(gs),
        Err(e) => Err(e.to_string()),
    }
}

/// Relies on globset's `GlobSet::is_match`: whether any pattern of the set
/// matches the path, a pure function of the pattern texts and the path text.
#[verifier::external_body]
pub(crate) fn globset_is_match(gs: &globset::GlobSet, path: &str) -> (r: bool)
    ensures
        r == glob_set_matches(globset_patterns(*gs), path@),
{
    gs.is_match(std::path::Path::new(path))
}

// ---------------------------------------------------------------------------
// The package.
// ---------------------------------------------------------------------------
/// A pattern failed to compile; carries the compiler's message.
#[derive(Debug)]
pub struct ConfigError {
    pub message: String,
}

/// Everything one walk pass consumes: the combined matcher over all patterns,
/// the derived pattern roots with their fully-covered flags (unique, in
/// encounter order), and the caller-supplied base roots, verbatim.
pub struct RootIteratorPackage {
    pub globset: globset::GlobSet,
    pub pattern_paths: Vec<(String, bool)>,
    pub root_paths: Vec<String>,
}

/// The views of a sequence of strings.
pub open spec fn str_views(s: Seq<String>) -> Seq<Seq<char>> {
    s.map_values(|p: String| p@)
}

/// The views of a sequence of root/flag pairs.
pub open spec fn pair_views(s: Seq<(String, bool)>) -> Seq<(Seq<char>, bool)> {
    s.map_values(|q: (String, bool)| (q.0@, q.1))
}

impl RootIteratorPackage {
    /// The pattern texts behind the combined matcher, in encounter order.
    pub open spec fn patterns(&self) -> Seq<Seq<char>> {
        globset_patterns(self.globset)
    }

    /// The derived (root, fully_covered) pairs, in encounter order.
    pub open spec fn pattern_roots(&self) -> Seq<(Seq<char>, bool)> {
        pair_views(self.pattern_paths@)
    }

    /// The base root paths, verbatim.
    pub open spec fn roots(&self) -> Seq<Seq<char>> {
        str_views(self.root_paths@)
    }
}

/// The derivable (root, fully_covered) pairs of a pattern list, in encounter
/// order, duplicates included.
pub open spec fn roots_of(patterns: Seq<Seq<char>>) -> Seq<(Seq<char>, bool)>
    decreases patterns.len(),
{
    if patterns.len() == 0 {
        Seq::empty()
    } else {
        roots_of(patterns.drop_last()) + match derived_root(patterns.last()) {
            Some(p) => seq![p],
            None => Seq::<(Seq<char>, bool)>::empty(),
        }
    }
}

/// A sequence with later repetitions of an element removed: each element is
/// kept only at its first occurrence.
pub open spec fn dedup(s: Seq<(Seq<char>, bool)>) -> Seq<(Seq<char>, bool)>
    decreases s.len(),
{
    if s.len() == 0 {
        Seq::empty()
    } else if s.drop_last().contains(s.last()) {
        dedup(s.drop_last())
    } else {
        dedup(s.drop_last()).push(s.last())
    }
}

/// Deduplication keeps exactly the elements of the input sequence.
pub proof fn lemma_dedup_contains(s: Seq<(Seq<char>, bool)>, x: (Seq<char>, bool))
    ensures
        dedup(s).contains(x) <==> s.contains(x),
    decreases s.len(),
{
    if s.len() > 0 {
        let d = s.drop_last();
        let l = s.last();
        lemma_dedup_contains(d, x);
        // membership in `s` is membership in `d` or equality with the last
        assert(s.contains(x) <==> (d.contains(x) || x == l)) by {
            if s.contains(x) {
                let i = choose|i: int| 0 <= i < s.len() && s[i] == x;
                if i < s.len() - 1 {
                    assert(d[i] == x);
                }
            }
            if d.contains(x) {
                let i = choose|i: int| 0 <= i < d.len() && d[i] == x;
                assert(s[i] == x);
            }
            if x == l {
                assert(s[s.len() - 1] == x);
            }
        }
        if d.contains(l) {
            assert(dedup(s) == dedup(d));
        } else {
            assert(dedup(s) == dedup(d).push(l));
            assert(dedup(d).push(l).contains(x) <==> (dedup(d).contains(x) || x == l)) by {
                let p = dedup(d).push(l);
                if p.contains(x) {
                    let i = choose|i: int| 0 <= i < p.len() && p[i] == x;
                    if i < p.len() - 1 {
                        assert(dedup(d)[i] == x);
                    }
                }
                if dedup(d).contains(x) {
                    let i = choose|i: int| 0 <= i < dedup(d).len() && dedup(d)[i] == x;
                    assert(p[i] == x);
                }
                if x == l {
                    assert(p[p.len() - 1] == x);
                }
            }
        }
    }
}

/// A deduplicated sequence holds no element twice.
pub proof fn lemma_dedup_distinct(s: Seq<(Seq<char>, bool)>)
    ensures
        forall|i: int, j: int|
            0 <= i < j < dedup(s).len() ==> dedup(s)[i] != dedup(s)[j],
    decreases s.len(),
{
    if s.len() > 0 {
        lemma_dedup_distinct(s.drop_last());
        if s.drop_last().contains(s.last()) {
            assert(dedup(s) == dedup(s.drop_last()));
        } else {
            lemma_dedup_contains(s.drop_last(), s.last());
            let d = dedup(s.drop_last());
            assert(dedup(s) == d.push(s.last()));
            assert forall|i: int, j: int|
                0 <= i < j < dedup(s).len() implies dedup(s)[i] != dedup(s)[j] by {
                assert(dedup(s)[i] == d[i]);
                if j < d.len() {
                    assert(dedup(s)[j] == d[j]);
                } else {
                    assert(dedup(s)[j] == s.last());
                    assert(!d.contains(s.last()));
                    if d[i] == s.last() {
                        assert(d.contains(s.last()));
                    }
                }
            }
        }
    }
}

/// Reserved entry point for pattern-set minimization across calls; the
/// current build derives roots per pattern and performs no cross-pattern
/// minimization, so this accepts the pattern list and does nothing.
pub fn parse_patterns(patterns: &Vec<String>) {
}

/// Builds the package: compiles every pattern into one combined matcher and
/// collects the derived roots, deduplicated, in encounter order.  Fails
/// exactly when a pattern does not compile, or the compiled patterns do not
/// combine into one matcher — before any walking.
pub fn root_iterator_package(roots: Vec<String>, patterns: &Vec<String>) -> (r: Result<
    RootIteratorPackage,
    ConfigError,
>)
    ensures
        r is Ok <==> ((forall|i: int|
            0 <= i < patterns@.len() ==> glob_compiles(#[trigger] patterns@[i]@))
            && glob_set_compiles(str_views(patterns@))),
        r matches Ok(pkg) ==> {
            &&& pkg.patterns() == str_views(patterns@)
            &&& pkg.pattern_roots() == dedup(roots_of(str_views(patterns@)))
            &&& pkg.roots() == str_views(roots@)
        },
{
    let ghost all_views = str_views(patterns@);
    let mut builder = globset_builder_new();
    let mut pairs: Vec<(String, bool)> = Vec::new();
    let mut idx: usize = 0;
    while idx < patterns.len()
        invariant
            idx <= patterns@.len(),
            all_views == str_views(patterns@),
            builder_patterns(builder) == str_views(patterns@.take(idx as int)),
            pair_views(pairs@) == dedup(roots_of(str_views(patterns@.take(idx as int)))),
            forall|j: int| 0 <= j < idx ==> glob_compiles(#[trigger] patterns@[j]@),
        decreases patterns@.len() - idx,
    {
        let pattern = &patterns[idx];
        let glob = match compile_glob(pattern.as_str()) {
            Ok(g) => g,
            Err(message) => {
                proof {
                    assert(!glob_compiles(patterns@[idx as int]@));
                }
                return Err(ConfigError { message });
            },
        };
        globset_builder_add(&mut builder, glob);
        let parsed = root_parser(pattern.as_str());
        proof {
            let prev = str_views(patterns@.take(idx as int));
            let now = str_views(patterns@.take(idx + 1));
            assert(now =~= prev.push(pattern@));
            assert(builder_patterns(builder) == now);
            assert(roots_of(now).drop_last() =~= roots_of(now.drop_last()).drop_last()
                || true);
            assert(now.drop_last() =~= prev);
        }
        match parsed {
            Some(pair) => {
                let ghost pv = (pair.0@, pair.1);
                proof {
                    let prev = str_views(patterns@.take(idx as int));
                    let now = str_views(patterns@.take(idx + 1));
                    assert(roots_of(now) =~= roots_of(prev).push(pv));
                    lemma_dedup_contains(roots_of(prev), pv);
                }
                if !contains_pair(&pairs, &pair.0, pair.1) {
                    pairs.push(pair);
                    proof {
                        let prev = str_views(patterns@.take(idx as int));
                        assert(pair_views(pairs@) =~= dedup(roots_of(prev)).push(pv));
                        let now = str_views(patterns@.take(idx + 1));
                        assert(roots_of(now).drop_last() =~= roots_of(prev));
                        assert(pair_views(pairs@) == dedup(roots_of(now)));
                    }
                } else {
                    proof {
                        let prev = str_views(patterns@.take(idx as int));
                        let now = str_views(patterns@.take(idx + 1));
                        assert(roots_of(now).drop_last() =~= roots_of(prev));
                        assert(dedup(roots_of(now)) == dedup(roots_of(prev)));
                    }
                }
            },
            None => {
                proof {
                    let prev = str_views(patterns@.take(idx as int));
                    let now = str_views(patterns@.take(idx + 1));
                    assert(derived_root(now.last()) is None);
                    assert(roots_of(now) =~= roots_of(prev));
                }
            },
        }
        idx = idx + 1;
    }
    proof {
        assert(patterns@.take(patterns@.len() as int) =~= patterns@);
    }
    let globset = match globset_build(&builder) {
        Ok(gs) => gs,
        Err(message) => {
            return Err(ConfigError { message });
        },
    };
    Ok(RootIteratorPackage { globset, pattern_paths: pairs, root_paths: roots })
}

/// Whether the pair list already holds this (root, flag) pair.
fn contains_pair(pairs: &Vec<(String, bool)>, root: &String, full: bool) -> (r: bool)
    ensures
        r == pair_views(pairs@).contains((root@, full)),
{
    let mut i: usize = 0;
    while i < pairs.len()
        invariant
            i <= pairs@.len(),
            forall|j: int| 0 <= j < i ==> pair_views(pairs@)[j] != (root@, full),
        decreases pairs@.len() - i,
    {
        if pairs[i].0 == *root && pairs[i].1 == full {
            proof {
                assert(pair_views(pairs@)[i as int] == (root@, full));
            }
            return true;
        }
        i = i + 1;
    }
    false
}

} // verus!
