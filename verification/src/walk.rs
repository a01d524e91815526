//! The directory walker's rules: which entry names are hidden or excluded,
//! which files count as Markdown, separator normalization for relative
//! paths, and the lexicographic ordering of the final path list.

use vstd::prelude::*;
use vstd::slice::*;
use vstd::multiset::Multiset;
use crate::text::has_prefix;
use crate::text::lex_le;
use crate::text::lex_le_strs;
use crate::text::lemma_lex_le_total;
use crate::text::lemma_lex_le_trans;
use crate::text::str_to_chars;
use crate::text::chars_to_string;
use crate::text::slice_eq_chars;

verus! {

/// `path` with every occurrence of `separator` replaced by `/`.
pub open spec fn slashified(path: Seq<char>, separator: char) -> Seq<char> {
    Seq::new(path.len(), |i: int| if path[i] == separator {
        '/'
    } else {
        path[i]
    })
}

/// Convert a relative path to its display form: the platform separator
/// becomes a forward slash, other characters stay as they are.
pub fn path_to_slash_string(path: &str, separator: char) -> (r: String)
    ensures
        r@ == slashified(path@, separator),
{
    let chars = str_to_chars(path);
    let n = chars.len();
    let mut out: Vec<char> = Vec::new();
    let mut i: usize = 0;
    while i < n
        invariant
            0 <= i <= n,
            n == path@.len(),
            chars@ == path@,
            out@.len() == i,
            forall|k: int| 0 <= k < i ==> out@[k] == slashified(path@, separator)[k],
        decreases n - i,
    {
        let c = chars[i];
        if c == separator {
            out.push('/');
        } else {
            out.push(c);
        }
        i = i + 1;
    }
    proof {
        assert(out@ =~= slashified(path@, separator));
    }
    chars_to_string(out.as_slice())
}

/// A hidden entry name: it starts with a dot.
pub open spec fn is_hidden(name: Seq<char>) -> bool {
    name.len() > 0 && name[0] == '.'
}

/// The walker skips an entry, file or directory, whose name starts with a
/// dot, at any depth.
pub fn is_hidden_name(name: &str) -> (r: bool)
    ensures
        r == is_hidden(name@),
{
    let chars = str_to_chars(name);
    chars.len() > 0 && chars[0] == '.'
}

/// A directory name the walker excludes at any depth: exactly `archive` or
/// `research`.
pub open spec fn is_excluded(name: Seq<char>) -> bool {
    name == "archive"@ || name == "research"@
}

/// The walker skips directories named `archive` or `research`, wherever
/// they stand, whatever the content of the files below them.
pub fn is_excluded_dir(name: &str) -> (r: bool)
    ensures
        r == is_excluded(name@),
{
    let chars = str_to_chars(name);
    let archive = str_to_chars("archive");
    let research = str_to_chars("research");
    slice_eq_chars(chars.as_slice(), archive.as_slice()) || slice_eq_chars(
        chars.as_slice(),
        research.as_slice(),
    )
}

/// `p` is a suffix of `s`.
pub open spec fn has_suffix(s: Seq<char>, p: Seq<char>) -> bool {
    p.len() <= s.len() && s.subrange(s.len() - p.len(), s.len() as int) == p
}

/// A Markdown file name: it ends with `.md`, case-sensitively.
pub fn is_markdown_name(name: &str) -> (r: bool)
    ensures
        r == has_suffix(name@, ".md"@),
{
    let chars = str_to_chars(name);
    let suffix = str_to_chars(".md");
    let n = chars.len();
    let m = suffix.len();
    if m > n {
        return false;
    }
    let tail = slice_subrange(chars.as_slice(), n - m, n);
    proof {
        assert(tail@ =~= name@.subrange(name@.len() - ".md"@.len(), name@.len() as int));
    }
    slice_eq_chars(tail, suffix.as_slice())
}

/// What the walker does with one directory entry.
#[derive(Clone, Copy, PartialEq, Eq, Structural, Debug)]
pub enum EntryAction {
    Skip,
    Recurse,
    Include,
}

/// The walker's rule for one entry, applied at every depth: hidden entries
/// are always skipped, as are directories named `archive` or `research`;
/// other directories are walked; other files are included exactly when
/// their name ends with `.md`.
pub open spec fn entry_action_of(name: Seq<char>, is_dir: bool, is_file: bool) -> EntryAction {
    if is_hidden(name) {
        EntryAction::Skip
    } else if is_dir {
        if is_excluded(name) {
            EntryAction::Skip
        } else {
            EntryAction::Recurse
        }
    } else if is_file && has_suffix(name, ".md"@) {
        EntryAction::Include
    } else {
        EntryAction::Skip
    }
}

/// Decide what to do with a directory entry of the given name and type.
/// Hidden entries and `archive`/`research` directories never pass, whatever
/// stands below or inside them.
pub fn entry_action(name: &str, is_dir: bool, is_file: bool) -> (r: EntryAction)
    ensures
        r == entry_action_of(name@, is_dir, is_file),
{
    if is_hidden_name(name) {
        EntryAction::Skip
    } else if is_dir {
        if is_excluded_dir(name) {
            EntryAction::Skip
        } else {
            EntryAction::Recurse
        }
    } else if is_file && is_markdown_name(name) {
        EntryAction::Include
    } else {
        EntryAction::Skip
    }
}

/// The path list is in strict lexicographic ascending order (equal entries
/// cannot occur, their names being unique within one tree).
pub open spec fn sorted_lex(s: Seq<Seq<char>>) -> bool {
    forall|a: int, b: int| 0 <= a < b < s.len() ==> lex_le(#[trigger] s[a], #[trigger] s[b])
}

/// The first `k` entries are in lexicographic order.
pub open spec fn sorted_prefix(s: Seq<Seq<char>>, k: int) -> bool {
    forall|a: int, b: int| 0 <= a < b < k ==> lex_le(#[trigger] s[a], #[trigger] s[b])
}

/// Sort the collected relative paths in lexicographic order by code point,
/// the order in which `String` values compare; the collection is preserved
/// as a multiset.
pub fn sort_paths(paths: &mut Vec<String>)
    ensures
        sorted_lex(final(paths).deep_view()),
        final(paths).deep_view().to_multiset() == old(paths).deep_view().to_multiset(),
        final(paths)@.len() == old(paths)@.len(),
{
    let n = paths.len();
    let mut i: usize = 1;
    while i < n
        invariant
            n == paths@.len(),
            i >= 1,
            n > 0 ==> i <= n,
            sorted_prefix(paths.deep_view(), i as int),
            paths.deep_view().to_multiset() == old(paths).deep_view().to_multiset(),
        decreases n - i,
    {
        let mut j: usize = i;
        while j > 0 && !lex_le_strs(paths[j - 1].as_str(), paths[j].as_str())
            invariant
                0 <= j <= i < n,
                n == paths@.len(),
                sorted_prefix(paths.deep_view(), j as int),
                forall|a: int, b: int|
                    j <= a < b <= i ==> lex_le(
                        #[trigger] paths.deep_view()[a],
                        #[trigger] paths.deep_view()[b],
                    ),
                forall|a: int, b: int|
                    0 <= a < j && j < b <= i ==> lex_le(
                        #[trigger] paths.deep_view()[a],
                        #[trigger] paths.deep_view()[b],
                    ),
                paths.deep_view().to_multiset() == old(paths).deep_view().to_multiset(),
            decreases j,
        {
            let ghost dv0 = paths.deep_view();
            proof {
                lemma_lex_le_total(dv0[j - 1], dv0[j as int]);
            }
            let x = paths[j - 1].clone();
            let y = paths[j].clone();
            paths.as_mut_slice().set(j - 1, y);
            paths.as_mut_slice().set(j, x);
            proof {
                broadcast use vstd::seq_lib::to_multiset_update;
                broadcast use vstd::seq_lib::group_to_multiset_ensures;
                broadcast use vstd::multiset::group_multiset_axioms;

                let dv = paths.deep_view();
                assert(dv =~= dv0.update(j - 1, dv0[j as int]).update(j as int, dv0[j - 1]));
                assert(dv0.contains(dv0[j - 1]));
                assert(dv0.contains(dv0[j as int]));
                assert(dv0.update(j - 1, dv0[j as int])[j as int] == dv0[j as int]);
                assert(dv.to_multiset() =~= dv0.to_multiset());
            }
            j = j - 1;
        }
        proof {
            let dv = paths.deep_view();
            assert forall|a: int, b: int| 0 <= a < b <= i implies lex_le(
                #[trigger] dv[a],
                #[trigger] dv[b],
            ) by {
                if b < j {
                } else if a >= j {
                } else if b == j as int {
                    if a < j - 1 {
                        lemma_lex_le_trans(dv[a], dv[j - 1], dv[j as int]);
                    }
                } else {
                }
            }
            assert(sorted_prefix(dv, i as int + 1));
        }
        i = i + 1;
    }
    proof {
        assert(sorted_lex(paths.deep_view()));
    }
}

/// A directory entry as the walker sees it: a file, a directory with what
/// stands below it, or an entry of another type (a socket, a device), which
/// the walk always skips.
pub enum FsNode {
    File { name: String },
    Dir { name: String, entries: Vec<FsNode> },
    Other { name: String },
}

/// `s` contains no path separator.
pub open spec fn no_slash(s: Seq<char>) -> bool {
    forall|i: int| 0 <= i < s.len() ==> s[i] != '/'
}

/// Every name in the tree is free of `/`, as filesystem entry names are.
pub open spec fn wf_node(n: FsNode) -> bool
    decreases n,
{
    match n {
        FsNode::File { name } => no_slash(name@),
        FsNode::Dir { name, entries } => no_slash(name@) && (forall|i: int|
            0 <= i < entries@.len() ==> wf_node(#[trigger] entries@[i])),
        FsNode::Other { name } => no_slash(name@),
    }
}

/// Every name in the listing's trees is free of `/`.
pub open spec fn wf_entries(entries: Seq<FsNode>) -> bool {
    forall|i: int| 0 <= i < entries.len() ==> wf_node(#[trigger] entries[i])
}

/// The markdown paths the walk yields below one entry, with `prefix`
/// prepended: nothing for a hidden entry, an excluded directory, a
/// non-markdown file or an entry of another type; `prefix + name` for a
/// markdown file; the subtree's paths under `prefix + name + "/"` for a
/// directory that is walked.
pub open spec fn node_paths(n: FsNode, prefix: Seq<char>) -> Multiset<Seq<char>>
    decreases n, 0int,
{
    match n {
        FsNode::File { name } => {
            if !is_hidden(name@) && has_suffix(name@, ".md"@) {
                Multiset::<Seq<char>>::empty().insert(prefix + name@)
            } else {
                Multiset::<Seq<char>>::empty()
            }
        },
        FsNode::Dir { name, entries } => {
            if !is_hidden(name@) && !is_excluded(name@) {
                entries_paths_to(entries@, prefix + name@ + seq!['/'], entries@.len() as int)
            } else {
                Multiset::<Seq<char>>::empty()
            }
        },
        FsNode::Other { name } => Multiset::<Seq<char>>::empty(),
    }
}

/// The markdown paths the walk yields for the first `i` entries of a
/// directory listing.
pub open spec fn entries_paths_to(entries: Seq<FsNode>, prefix: Seq<char>, i: int) -> Multiset<
    Seq<char>,
>
    decreases entries, i,
    when i <= entries.len()
    via entries_paths_to_decreases
{
    if i <= 0 {
        Multiset::<Seq<char>>::empty()
    } else {
        entries_paths_to(entries, prefix, i - 1).add(node_paths(entries[i - 1], prefix))
    }
}

#[via_fn]
proof fn entries_paths_to_decreases(entries: Seq<FsNode>, prefix: Seq<char>, i: int) {
    if 0 < i <= entries.len() {
        assert(decreases_to!(entries => entries[i - 1]));
    }
}

/// The markdown paths the walk yields for a whole directory listing.
pub open spec fn entries_paths(entries: Seq<FsNode>, prefix: Seq<char>) -> Multiset<Seq<char>> {
    entries_paths_to(entries, prefix, entries.len() as int)
}

/// No component of the slash-separated path starts with a dot: neither the
/// path's first character nor any character after a `/` is `.`.
pub open spec fn no_hidden_component(p: Seq<char>) -> bool {
    &&& p.len() > 0 ==> p[0] != '.'
    &&& forall|i: int| 0 <= i && i + 1 < p.len() && #[trigger] p[i] == '/' ==> p[i + 1] != '.'
}

/// No directory component of the path is an excluded name: every slash-free
/// run that opens the path or follows a `/`, and is closed by a `/`, differs
/// from `archive` and `research`.
pub open spec fn no_excluded_component(p: Seq<char>) -> bool {
    forall|i: int, j: int|
        0 <= i <= j < p.len() && (i == 0 || p[i - 1] == '/') && p[j] == '/' && (forall|k: int|
            i <= k < j ==> p[k] != '/') ==> !is_excluded(#[trigger] p.subrange(i, j))
}

/// What holds of every path the walk yields, past the prefix it was given:
/// no component is hidden, no directory component is excluded, and the file
/// name ends in `.md`.
pub open spec fn rel_path_ok(p: Seq<char>) -> bool {
    no_hidden_component(p) && no_excluded_component(p) && has_suffix(p, ".md"@)
}

/// Prepending one visible, non-excluded, separator-free directory name
/// keeps a relative path acceptable.
proof fn lemma_rel_extend(name: Seq<char>, rest: Seq<char>)
    requires
        no_slash(name),
        !is_hidden(name),
        !is_excluded(name),
        rel_path_ok(rest),
    ensures
        rel_path_ok(name + seq!['/'] + rest),
{
    let p = name + seq!['/'] + rest;
    let nl = name.len() as int;
    assert(forall|k: int| 0 <= k < nl ==> p[k] == name[k]);
    assert(p[nl] == '/');
    assert(forall|k: int| nl < k < p.len() ==> p[k] == rest[k - nl - 1]);
    assert(no_hidden_component(p)) by {
        assert(p.len() > 0 ==> p[0] != '.');
        assert forall|i: int|
            0 <= i && i + 1 < p.len() && #[trigger] p[i] == '/' implies p[i + 1] != '.' by {
            if i < nl {
                assert(name[i] != '/');
            } else if i == nl {
                assert(p[i + 1] == rest[0]);
            } else {
                assert(rest[i - nl - 1] == '/');
                assert(p[i + 1] == rest[i - nl]);
            }
        }
    }
    assert(no_excluded_component(p)) by {
        assert forall|i: int, j: int|
            0 <= i <= j < p.len() && (i == 0 || p[i - 1] == '/') && p[j] == '/' && (forall|k: int|
                i <= k < j ==> p[k] != '/') implies !is_excluded(#[trigger] p.subrange(i, j)) by {
            if j < nl {
                assert(name[j] != '/');
            } else if j == nl {
                assert(i == 0) by {
                    if i > 0 {
                        assert(p[i - 1] == '/');
                        assert(name[i - 1] != '/');
                    }
                }
                assert(p.subrange(0, nl) =~= name);
            } else {
                if i <= nl {
                    assert(p[nl] == '/');
                    assert(false);
                } else {
                    let i2 = i - nl - 1;
                    let j2 = j - nl - 1;
                    assert(i2 == 0 || rest[i2 - 1] == '/') by {
                        if i - 1 > nl {
                            assert(p[i - 1] == rest[i - 1 - nl - 1]);
                        }
                    }
                    assert(rest[j2] == '/');
                    assert forall|k: int| i2 <= k < j2 implies rest[k] != '/' by {
                        assert(p[k + nl + 1] != '/');
                        assert(p[k + nl + 1] == rest[k]);
                    }
                    assert(p.subrange(i, j) =~= rest.subrange(i2, j2));
                    assert(!is_excluded(rest.subrange(i2, j2)));
                }
            }
        }
    }
    assert(has_suffix(p, ".md"@)) by {
        let sl = ".md"@.len() as int;
        assert(p.subrange(p.len() - sl, p.len() as int) =~= rest.subrange(
            rest.len() - sl,
            rest.len() as int,
        ));
    }
}

proof fn lemma_node_paths_clean(n: FsNode, prefix: Seq<char>)
    requires
        wf_node(n),
    ensures
        forall|p: Seq<char>|
            #[trigger] node_paths(n, prefix).count(p) > 0 ==> has_prefix(p, prefix)
                && rel_path_ok(p.skip(prefix.len() as int)),
    decreases n, 0int,
{
    broadcast use vstd::multiset::group_multiset_axioms;

    match n {
        FsNode::File { name } => {
            if !is_hidden(name@) && has_suffix(name@, ".md"@) {
                let q = prefix + name@;
                assert forall|p: Seq<char>|
                    #[trigger] node_paths(n, prefix).count(p) > 0 implies has_prefix(p, prefix)
                    && rel_path_ok(p.skip(prefix.len() as int)) by {
                    assert(p == q);
                    assert(q.subrange(0, prefix.len() as int) =~= prefix);
                    assert(q.skip(prefix.len() as int) =~= name@);
                    assert(rel_path_ok(name@));
                }
            }
        },
        FsNode::Dir { name, entries } => {
            if !is_hidden(name@) && !is_excluded(name@) {
                let prefix2 = prefix + name@ + seq!['/'];
                lemma_entries_paths_clean_to(entries@, prefix2, entries@.len() as int);
                assert forall|p: Seq<char>|
                    #[trigger] node_paths(n, prefix).count(p) > 0 implies has_prefix(p, prefix)
                    && rel_path_ok(p.skip(prefix.len() as int)) by {
                    assert(entries_paths_to(entries@, prefix2, entries@.len() as int).count(p)
                        > 0);
                    assert(has_prefix(p, prefix2));
                    assert(p.subrange(0, prefix2.len() as int) == prefix2);
                    assert forall|k: int| 0 <= k < prefix2.len() implies p[k] == prefix2[k] by {
                        assert(p.subrange(0, prefix2.len() as int)[k] == p[k]);
                    }
                    assert(p.subrange(0, prefix.len() as int) =~= prefix);
                    let rest = p.skip(prefix2.len() as int);
                    lemma_rel_extend(name@, rest);
                    assert(p.skip(prefix.len() as int) =~= name@ + seq!['/'] + rest);
                }
            }
        },
        FsNode::Other { name } => {},
    }
}

proof fn lemma_entries_paths_clean_to(entries: Seq<FsNode>, prefix: Seq<char>, i: int)
    requires
        wf_entries(entries),
        i <= entries.len(),
    ensures
        forall|p: Seq<char>|
            #[trigger] entries_paths_to(entries, prefix, i).count(p) > 0 ==> has_prefix(p, prefix)
                && rel_path_ok(p.skip(prefix.len() as int)),
    decreases entries, i,
{
    broadcast use vstd::multiset::group_multiset_axioms;

    if i > 0 {
        lemma_entries_paths_clean_to(entries, prefix, i - 1);
        lemma_node_paths_clean(entries[i - 1], prefix);
        assert forall|p: Seq<char>|
            #[trigger] entries_paths_to(entries, prefix, i).count(p) > 0 implies has_prefix(
            p,
            prefix,
        ) && rel_path_ok(p.skip(prefix.len() as int)) by {
            assert(entries_paths_to(entries, prefix, i).count(p) == entries_paths_to(
                entries,
                prefix,
                i - 1,
            ).count(p) + node_paths(entries[i - 1], prefix).count(p));
        }
    }
}

/// Whole-tree guarantee of the walk: under a tree whose entry names hold no
/// separator, every path the walk yields starts with the given prefix, and
/// past it no component starts with a dot, no directory component is named
/// `archive` or `research`, and the file name ends in `.md` — at any
/// nesting depth, whatever the files' content.
pub proof fn lemma_entries_paths_clean(entries: Seq<FsNode>, prefix: Seq<char>)
    requires
        wf_entries(entries),
    ensures
        forall|p: Seq<char>|
            #[trigger] entries_paths(entries, prefix).count(p) > 0 ==> has_prefix(p, prefix)
                && rel_path_ok(p.skip(prefix.len() as int)),
{
    lemma_entries_paths_clean_to(entries, prefix, entries.len() as int);
}

/// The entry's name.
pub open spec fn node_name(n: FsNode) -> Seq<char> {
    match n {
        FsNode::File { name } => name@,
        FsNode::Dir { name, entries } => name@,
        FsNode::Other { name } => name@,
    }
}

/// Sibling names are pairwise distinct throughout the tree, as names within
/// one directory are.
pub open spec fn uniq_node(n: FsNode) -> bool
    decreases n,
{
    match n {
        FsNode::Dir { name, entries } => (forall|a: int, b: int|
            0 <= a < b < entries@.len() ==> node_name(#[trigger] entries@[a]) != node_name(
                #[trigger] entries@[b],
            )) && (forall|i: int| 0 <= i < entries@.len() ==> uniq_node(#[trigger] entries@[i])),
        FsNode::File { name } => true,
        FsNode::Other { name } => true,
    }
}

/// Sibling names are pairwise distinct in the listing and below it.
pub open spec fn uniq_entries(entries: Seq<FsNode>) -> bool {
    &&& forall|a: int, b: int|
        0 <= a < b < entries.len() ==> node_name(#[trigger] entries[a]) != node_name(
            #[trigger] entries[b],
        )
    &&& forall|i: int| 0 <= i < entries.len() ==> uniq_node(#[trigger] entries[i])
}

/// Every path a walked entry yields starts, past the prefix, with the
/// entry's name: exactly the name for a file, the name then `/` for a
/// directory.
proof fn lemma_node_paths_shape(n: FsNode, prefix: Seq<char>)
    requires
        wf_node(n),
    ensures
        forall|p: Seq<char>|
            #[trigger] node_paths(n, prefix).count(p) > 0 ==> match n {
                FsNode::File { name } => p.skip(prefix.len() as int) == name@,
                FsNode::Dir { name, entries } => p.skip(prefix.len() as int).len() > name@.len()
                    && p.skip(prefix.len() as int).take(name@.len() as int) == name@ && p.skip(
                    prefix.len() as int,
                )[name@.len() as int] == '/',
                FsNode::Other { name } => false,
            },
{
    broadcast use vstd::multiset::group_multiset_axioms;

    match n {
        FsNode::File { name } => {
            if !is_hidden(name@) && has_suffix(name@, ".md"@) {
                assert forall|p: Seq<char>|
                    #[trigger] node_paths(n, prefix).count(p) > 0 implies p.skip(
                    prefix.len() as int,
                ) == name@ by {
                    assert(p == prefix + name@);
                    assert(p.skip(prefix.len() as int) =~= name@);
                }
            }
        },
        FsNode::Dir { name, entries } => {
            if !is_hidden(name@) && !is_excluded(name@) {
                let prefix2 = prefix + name@ + seq!['/'];
                lemma_entries_paths_clean_to(entries@, prefix2, entries@.len() as int);
                assert forall|p: Seq<char>|
                    #[trigger] node_paths(n, prefix).count(p) > 0 implies p.skip(
                    prefix.len() as int,
                ).len() > name@.len() && p.skip(prefix.len() as int).take(name@.len() as int)
                    == name@ && p.skip(prefix.len() as int)[name@.len() as int] == '/' by {
                    assert(entries_paths_to(entries@, prefix2, entries@.len() as int).count(p)
                        > 0);
                    assert(has_prefix(p, prefix2));
                    assert(p.subrange(0, prefix2.len() as int) == prefix2);
                    assert forall|k: int| 0 <= k < prefix2.len() implies p[k] == prefix2[k] by {
                        assert(p.subrange(0, prefix2.len() as int)[k] == p[k]);
                    }
                    assert(p.skip(prefix.len() as int).take(name@.len() as int) =~= name@);
                }
            }
        },
        FsNode::Other { name } => {},
    }
}

/// Entries of different names yield disjoint path sets under one prefix.
proof fn lemma_node_paths_disjoint(n1: FsNode, n2: FsNode, prefix: Seq<char>)
    requires
        wf_node(n1),
        wf_node(n2),
        node_name(n1) != node_name(n2),
    ensures
        forall|p: Seq<char>|
            #[trigger] node_paths(n1, prefix).count(p) > 0 ==> node_paths(n2, prefix).count(p)
                == 0,
{
    lemma_node_paths_shape(n1, prefix);
    lemma_node_paths_shape(n2, prefix);
    assert forall|p: Seq<char>|
        #[trigger] node_paths(n1, prefix).count(p) > 0 implies node_paths(n2, prefix).count(p)
        == 0 by {
        if node_paths(n2, prefix).count(p) > 0 {
            let rel = p.skip(prefix.len() as int);
            let m1 = node_name(n1);
            let m2 = node_name(n2);
            match n1 {
                FsNode::File { name } => {
                    match n2 {
                        FsNode::File { name: name2 } => {
                            assert(m1 == rel && m2 == rel);
                        },
                        FsNode::Dir { name: name2, entries } => {
                            assert(rel[m2.len() as int] == '/');
                            assert(rel.take(m2.len() as int) == m2);
                            assert(m1[m2.len() as int] == '/');
                        },
                        FsNode::Other { name: name2 } => {},
                    }
                },
                FsNode::Dir { name, entries } => {
                    match n2 {
                        FsNode::File { name: name2 } => {
                            assert(rel[m1.len() as int] == '/');
                            assert(m2[m1.len() as int] == '/');
                        },
                        FsNode::Dir { name: name2, entries: entries2 } => {
                            if m1.len() == m2.len() {
                                assert(rel.take(m1.len() as int) == m1);
                                assert(rel.take(m2.len() as int) == m2);
                            } else if m1.len() < m2.len() {
                                assert(rel[m1.len() as int] == '/');
                                assert(rel.take(m2.len() as int)[m1.len() as int] == m2[m1.len()
                                    as int]);
                                assert(m2[m1.len() as int] == '/');
                            } else {
                                assert(rel[m2.len() as int] == '/');
                                assert(rel.take(m1.len() as int)[m2.len() as int] == m1[m2.len()
                                    as int]);
                                assert(m1[m2.len() as int] == '/');
                            }
                        },
                        FsNode::Other { name: name2 } => {},
                    }
                },
                FsNode::Other { name } => {
                    assert(false);
                },
            }
        }
    }
}

/// A path in a partial listing sum comes from one of its entries.
proof fn lemma_entries_paths_member(entries: Seq<FsNode>, prefix: Seq<char>, i: int, p: Seq<char>)
    requires
        0 <= i <= entries.len(),
        entries_paths_to(entries, prefix, i).count(p) > 0,
    ensures
        exists|k: int|
            0 <= k < i && #[trigger] node_paths(entries[k], prefix).count(p) > 0,
    decreases i,
{
    broadcast use vstd::multiset::group_multiset_axioms;

    if i > 0 {
        if node_paths(entries[i - 1], prefix).count(p) > 0 {
        } else {
            assert(entries_paths_to(entries, prefix, i - 1).count(p) > 0);
            lemma_entries_paths_member(entries, prefix, i - 1, p);
        }
    }
}

proof fn lemma_node_paths_unique(n: FsNode, prefix: Seq<char>)
    requires
        wf_node(n),
        uniq_node(n),
    ensures
        forall|p: Seq<char>| #[trigger] node_paths(n, prefix).count(p) <= 1,
    decreases n, 0int,
{
    broadcast use vstd::multiset::group_multiset_axioms;

    match n {
        FsNode::File { name } => {
            assert forall|p: Seq<char>| #[trigger] node_paths(n, prefix).count(p) <= 1 by {
                if !is_hidden(name@) && has_suffix(name@, ".md"@) {
                    let q = prefix + name@;
                    assert(node_paths(n, prefix) == Multiset::<Seq<char>>::empty().insert(q));
                    assert(Multiset::<Seq<char>>::empty().insert(q).count(q) == 1);
                    if p != q {
                        assert(Multiset::<Seq<char>>::empty().insert(q).count(p) == 0);
                    }
                } else {
                    assert(node_paths(n, prefix) == Multiset::<Seq<char>>::empty());
                    assert(Multiset::<Seq<char>>::empty().count(p) == 0);
                }
            }
        },
        FsNode::Dir { name, entries } => {
            if !is_hidden(name@) && !is_excluded(name@) {
                let prefix2 = prefix + name@ + seq!['/'];
                lemma_entries_paths_unique_to(entries@, prefix2, entries@.len() as int);
                assert forall|p: Seq<char>|
                    #[trigger] node_paths(n, prefix).count(p) <= 1 by {
                    assert(entries_paths_to(entries@, prefix2, entries@.len() as int).count(p)
                        <= 1);
                }
            } else {
                assert forall|p: Seq<char>|
                    #[trigger] node_paths(n, prefix).count(p) <= 1 by {
                    assert(node_paths(n, prefix) == Multiset::<Seq<char>>::empty());
                    assert(Multiset::<Seq<char>>::empty().count(p) == 0);
                }
            }
        },
        FsNode::Other { name } => {
            assert forall|p: Seq<char>| #[trigger] node_paths(n, prefix).count(p) <= 1 by {
                assert(node_paths(n, prefix) == Multiset::<Seq<char>>::empty());
                assert(Multiset::<Seq<char>>::empty().count(p) == 0);
            }
        },
    }
}

proof fn lemma_entries_paths_unique_to(entries: Seq<FsNode>, prefix: Seq<char>, i: int)
    requires
        wf_entries(entries),
        uniq_entries(entries),
        i <= entries.len(),
    ensures
        forall|p: Seq<char>| #[trigger] entries_paths_to(entries, prefix, i).count(p) <= 1,
    decreases entries, i,
{
    broadcast use vstd::multiset::group_multiset_axioms;

    if i > 0 {
        lemma_entries_paths_unique_to(entries, prefix, i - 1);
        lemma_node_paths_unique(entries[i - 1], prefix);
        assert forall|p: Seq<char>|
            #[trigger] entries_paths_to(entries, prefix, i).count(p) <= 1 by {
            assert(entries_paths_to(entries, prefix, i).count(p) == entries_paths_to(
                entries,
                prefix,
                i - 1,
            ).count(p) + node_paths(entries[i - 1], prefix).count(p));
            if entries_paths_to(entries, prefix, i - 1).count(p) > 0 && node_paths(
                entries[i - 1],
                prefix,
            ).count(p) > 0 {
                lemma_entries_paths_member(entries, prefix, i - 1, p);
                let k = choose|k: int|
                    0 <= k < i - 1 && #[trigger] node_paths(entries[k], prefix).count(p) > 0;
                lemma_node_paths_disjoint(entries[k], entries[i - 1], prefix);
                assert(false);
            }
        }
    }
}

/// Under a tree with separator-free, sibling-distinct names, no two walked
/// markdown files share a relative path: every path is yielded at most once.
pub proof fn lemma_entries_paths_unique(entries: Seq<FsNode>, prefix: Seq<char>)
    requires
        wf_entries(entries),
        uniq_entries(entries),
    ensures
        forall|p: Seq<char>| #[trigger] entries_paths(entries, prefix).count(p) <= 1,
{
    lemma_entries_paths_unique_to(entries, prefix, entries.len() as int);
}

/// The path list is in strictly ascending lexicographic order: ordered and
/// free of duplicates.
pub open spec fn strictly_sorted_lex(s: Seq<Seq<char>>) -> bool {
    forall|a: int, b: int|
        0 <= a < b < s.len() ==> lex_le(#[trigger] s[a], #[trigger] s[b]) && s[a] != s[b]
}

/// Walk one directory listing of the tree: apply the entry rule to every
/// entry, build file paths under `prefix`, recurse into walked directories,
/// and sort the level's collected paths.
pub fn walk_tree(entries: &Vec<FsNode>, prefix: &str) -> (r: Vec<String>)
    ensures
        sorted_lex(r.deep_view()),
        r.deep_view().to_multiset() == entries_paths(entries@, prefix@),
    decreases entries@,
{
    let n = entries.len();
    let mut out: Vec<String> = Vec::new();
    let mut i: usize = 0;
    proof {
        broadcast use vstd::multiset::group_multiset_axioms;
        broadcast use vstd::seq_lib::group_to_multiset_ensures;

        assert(out.deep_view() =~= Seq::<Seq<char>>::empty());
        assert(out.deep_view().to_multiset() =~= entries_paths_to(entries@, prefix@, 0));
    }
    while i < n
        invariant
            0 <= i <= n,
            n == entries@.len(),
            out.deep_view().to_multiset() == entries_paths_to(entries@, prefix@, i as int),
        decreases n - i,
    {
        let node = &entries[i];
        let ghost prev = out.deep_view();
        match node {
            FsNode::File { name } => {
                if entry_action(name.as_str(), false, true) == EntryAction::Include {
                    let mut pth = String::from_str(prefix);
                    pth.append(name.as_str());
                    out.push(pth);
                    proof {
                        broadcast use vstd::seq_lib::group_to_multiset_ensures;
                        broadcast use vstd::multiset::group_multiset_axioms;

                        assert(out.deep_view() =~= prev.push(prefix@ + name@));
                        assert(out.deep_view().to_multiset() =~= prev.to_multiset().add(
                            node_paths(entries@[i as int], prefix@),
                        ));
                    }
                } else {
                    proof {
                        broadcast use vstd::multiset::group_multiset_axioms;

                        assert(prev.to_multiset() =~= prev.to_multiset().add(
                            node_paths(entries@[i as int], prefix@),
                        ));
                    }
                }
            },
            FsNode::Dir { name, entries: children } => {
                if entry_action(name.as_str(), true, false) == EntryAction::Recurse {
                    let mut child_prefix = String::from_str(prefix);
                    child_prefix.append(name.as_str());
                    child_prefix.append("/");
                    proof {
                        reveal_strlit("/");
                        assert(child_prefix@ =~= prefix@ + name@ + seq!['/']);
                        assert(decreases_to!(entries@ => entries@[i as int]));
                    }
                    let mut sub = walk_tree(children, child_prefix.as_str());
                    let ghost sub_dv = sub.deep_view();
                    out.append(&mut sub);
                    proof {
                        broadcast use vstd::multiset::group_multiset_axioms;
                        broadcast use vstd::seq_lib::lemma_multiset_commutative;

                        assert(out.deep_view() =~~= prev + sub_dv);
                        assert(out.deep_view().to_multiset() =~= prev.to_multiset().add(
                            node_paths(entries@[i as int], prefix@),
                        ));
                    }
                } else {
                    proof {
                        broadcast use vstd::multiset::group_multiset_axioms;

                        assert(prev.to_multiset() =~= prev.to_multiset().add(
                            node_paths(entries@[i as int], prefix@),
                        ));
                    }
                }
            },
            FsNode::Other { name } => {
                proof {
                    broadcast use vstd::multiset::group_multiset_axioms;

                    assert(prev.to_multiset() =~= prev.to_multiset().add(
                        node_paths(entries@[i as int], prefix@),
                    ));
                }
            },
        }
        i = i + 1;
    }
    sort_paths(&mut out);
    out
}

/// Collect the slash-separated relative paths of all markdown files under
/// the tree of a docs root, the walk's rules applied at every depth, in
/// lexicographic order. When the tree's names hold no separator — as
/// filesystem entry names do — no returned path has a hidden component or
/// an excluded directory component, and each ends in `.md`.
pub fn collect_markdown_paths(tree: &Vec<FsNode>) -> (r: Vec<String>)
    ensures
        sorted_lex(r.deep_view()),
        r.deep_view().to_multiset() == entries_paths(tree@, Seq::<char>::empty()),
        wf_entries(tree@) ==> forall|k: int|
            0 <= k < r.deep_view().len() ==> rel_path_ok(#[trigger] r.deep_view()[k]),
        wf_entries(tree@) && uniq_entries(tree@) ==> strictly_sorted_lex(r.deep_view()),
{
    let out = walk_tree(tree, "");
    proof {
        broadcast use vstd::seq_lib::group_to_multiset_ensures;
        broadcast use vstd::multiset::group_multiset_axioms;

        reveal_strlit("");
        assert(""@ =~= Seq::<char>::empty());
        let dv = out.deep_view();
        if wf_entries(tree@) {
            lemma_entries_paths_clean(tree@, Seq::<char>::empty());
            assert forall|k: int| 0 <= k < dv.len() implies rel_path_ok(#[trigger] dv[k]) by {
                assert(dv.to_multiset().count(dv[k]) > 0);
                assert(dv[k].skip(0) =~= dv[k]);
            }
            if uniq_entries(tree@) {
                lemma_entries_paths_unique(tree@, Seq::<char>::empty());
                assert forall|a: int, b: int| 0 <= a < b < dv.len() implies lex_le(
                    #[trigger] dv[a],
                    #[trigger] dv[b],
                ) && dv[a] != dv[b] by {
                    if dv[a] == dv[b] {
                        let s1 = dv.remove(a);
                        assert(s1.to_multiset() =~= dv.to_multiset().remove(dv[a]));
                        assert(s1[b - 1] == dv[b]);
                        assert(s1.contains(s1[b - 1]));
                        assert(s1.to_multiset().count(dv[a]) > 0);
                        assert(dv.to_multiset().count(dv[a]) >= 2);
                        assert(entries_paths(tree@, Seq::<char>::empty()).count(dv[a]) <= 1);
                        assert(false);
                    }
                }
            }
        }
    }
    out
}

} // verus!
