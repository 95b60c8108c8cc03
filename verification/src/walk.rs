//! The filesystem tree model, discovery of configuration files and roots,
//! and the repetition scan across roots.
//!
//! A scan works on a snapshot of the filesystem: the starting path and the
//! entries found beneath it, each entry carrying its path, whether it is a
//! file, and — for a readable file — its text.  Directories and unreadable
//! files carry no text and are skipped wherever text is needed, so traversal
//! errors never abort a scan.

use vstd::prelude::*;
use vstd::string::StrSliceExecFns;
use vstd::string::StringExecFns;

use crate::document::parsed_doc;
use crate::report::{index_spec, ranked, EntryV, RepetitionIndex};
use crate::terraform::{
    doc_of, is_root_text, is_top_level, parse, prepend_all, strings, strings_spec,
};

verus! {

/// One filesystem entry of a snapshot.
pub struct FsEntry {
    /// The entry's path, with `/` separating its components.
    pub path: String,
    /// Whether the entry is a file (directories are never yielded as files).
    pub is_file: bool,
    /// A readable file's text; `None` for directories and unreadable files.
    pub text: Option<String>,
}

/// A snapshot of the filesystem below a starting path.
pub struct FsTree {
    /// The starting path of the scan.
    pub path: String,
    /// Every entry found beneath (and including) the starting path.
    pub entries: Vec<FsEntry>,
}

/// A path is admitted when its file name carries the `.tf` extension:
/// it ends in `.tf` and the character before the extension belongs to a
/// non-empty file name (it is not a path separator, and it exists).
pub open spec fn admits_path(p: Seq<char>) -> bool {
    &&& p.len() >= 4
    &&& p[p.len() - 3] == '.'
    &&& p[p.len() - 2] == 't'
    &&& p[p.len() - 1] == 'f'
    &&& p[p.len() - 4] != '/'
}

/// An entry the walk yields: a file whose name carries the extension.
pub open spec fn admitted(e: FsEntry) -> bool {
    e.is_file && admits_path(e.path@)
}

/// The admitted file paths of a snapshot, in snapshot order.
pub open spec fn files_spec(es: Seq<FsEntry>) -> Seq<Seq<char>>
    decreases es.len(),
{
    if es.len() == 0 {
        Seq::empty()
    } else {
        files_spec(es.drop_last()) + if admitted(es.last()) {
            seq![es.last().path@]
        } else {
            Seq::empty()
        }
    }
}

/// The index of the last `/` of `p`, or -1.
pub open spec fn last_slash(p: Seq<char>) -> int
    decreases p.len(),
{
    if p.len() == 0 {
        -1
    } else if p.last() == '/' {
        p.len() - 1
    } else {
        last_slash(p.drop_last())
    }
}

/// The parent of a path: everything before its last component.
pub open spec fn parent_of(p: Seq<char>) -> Seq<char> {
    let j = last_slash(p);
    if j < 0 {
        Seq::empty()
    } else if j == 0 {
        seq!['/']
    } else {
        p.take(j)
    }
}

/// An entry that marks a root: an admitted, readable file whose text
/// satisfies the root schema.
pub open spec fn is_root_entry(e: FsEntry) -> bool {
    &&& admitted(e)
    &&& match e.text {
        Some(t) => is_root_text(t@),
        None => false,
    }
}

/// The parent directory of every root-marking file, in snapshot order, one
/// for each qualifying file (callers deduplicate).
pub open spec fn roots_spec(es: Seq<FsEntry>) -> Seq<Seq<char>>
    decreases es.len(),
{
    if es.len() == 0 {
        Seq::empty()
    } else {
        roots_spec(es.drop_last()) + if is_root_entry(es.last()) {
            seq![parent_of(es.last().path@)]
        } else {
            Seq::empty()
        }
    }
}

/// Whether `p` lies under the directory `root` (or is `root` itself).
pub open spec fn under(root: Seq<char>, p: Seq<char>) -> bool {
    p == root || (p.len() > root.len() && p.take(root.len() as int) == root && p[root.len() as int]
        == '/')
}

/// The root-qualified (address, value) pairs one entry contributes to the
/// scan of `root`: nothing unless it is an admitted, readable file under
/// `root` whose text parses.
pub open spec fn entry_pairs(e: FsEntry, root: Seq<char>) -> Seq<(Seq<char>, Seq<char>)> {
    if admitted(e) && under(root, e.path@) {
        match e.text {
            Some(t) => if parsed_doc(t@) is Some {
                prepend_all(root, ':', strings_spec(doc_of(t@)))
            } else {
                Seq::empty()
            },
            None => Seq::empty(),
        }
    } else {
        Seq::empty()
    }
}

/// The pairs a whole snapshot contributes to the scan of `root`.
pub open spec fn root_pairs(es: Seq<FsEntry>, root: Seq<char>) -> Seq<(Seq<char>, Seq<char>)>
    decreases es.len(),
{
    if es.len() == 0 {
        Seq::empty()
    } else {
        root_pairs(es.drop_last(), root) + entry_pairs(es.last(), root)
    }
}

/// The pairs of a scan over a sequence of roots, root by root.
pub open spec fn all_pairs(es: Seq<FsEntry>, roots: Seq<Seq<char>>) -> Seq<
    (Seq<char>, Seq<char>),
>
    decreases roots.len(),
{
    if roots.len() == 0 {
        Seq::empty()
    } else {
        all_pairs(es, roots.drop_last()) + root_pairs(es, roots.last())
    }
}

/// The roots a scan works over: the discovered ones, or the starting path
/// alone when none is found.
pub open spec fn used_roots(path: Seq<char>, es: Seq<FsEntry>) -> Seq<Seq<char>> {
    if roots_spec(es).len() == 0 {
        seq![path]
    } else {
        roots_spec(es)
    }
}

/// The ranked report of a whole scan: every pair of every parsed file under
/// each used root, aggregated into an index and ranked under the threshold.
pub open spec fn report_spec(path: Seq<char>, es: Seq<FsEntry>, min: nat) -> Seq<EntryV> {
    ranked(index_spec(all_pairs(es, used_roots(path, es))), min)
}

/// Exact, case-sensitive match on the configuration-file extension.
pub fn has_terraform_extension(p: &str) -> (r: bool)
    ensures
        r == admits_path(p@),
{
    let n = p.unicode_len();
    if n < 4 {
        return false;
    }
    p.get_char(n - 3) == '.' && p.get_char(n - 2) == 't' && p.get_char(n - 1) == 'f'
        && p.get_char(n - 4) != '/'
}

/// The parent of a path, as `Path::parent` renders it: empty when the path
/// is a bare name, `/` when the last separator leads the path.
fn parent(p: &str) -> (r: String)
    ensures
        r@ == parent_of(p@),
{
    let n = p.unicode_len();
    let mut found = false;
    let mut j: usize = 0;
    let mut i: usize = 0;
    while i < n
        invariant
            i <= n,
            n == p@.len(),
            found <==> last_slash(p@.take(i as int)) >= 0,
            !found ==> last_slash(p@.take(i as int)) == -1,
            found ==> j as int == last_slash(p@.take(i as int)) && j < i,
        decreases n - i,
    {
        proof {
            assert(p@.take(i + 1).drop_last() =~= p@.take(i as int));
            assert(p@.take(i + 1).last() == p@[i as int]);
        }
        if p.get_char(i) == '/' {
            found = true;
            j = i;
        }
        i += 1;
    }
    proof {
        assert(p@.take(n as int) =~= p@);
    }
    if !found {
        String::new()
    } else if j == 0 {
        let r = "/".to_owned();
        proof {
            reveal_strlit("/");
            assert(r@ =~= seq!['/']);
        }
        r
    } else {
        p.substring_char(0, j).to_owned()
    }
}

/// Every admitted configuration file of the snapshot, in snapshot order.
pub fn find_files(tree: &FsTree) -> (r: Vec<String>)
    ensures
        r.deep_view() == files_spec(tree.entries@),
{
    let ghost es = tree.entries@;
    let mut r: Vec<String> = Vec::new();
    let mut i: usize = 0;
    while i < tree.entries.len()
        invariant
            i <= tree.entries.len(),
            es == tree.entries@,
            r.deep_view() == files_spec(es.take(i as int)),
        decreases tree.entries.len() - i,
    {
        proof {
            assert(es.take(i + 1).drop_last() =~= es.take(i as int));
            assert(es.take(i + 1).last() == es[i as int]);
        }
        let e = &tree.entries[i];
        if e.is_file && has_terraform_extension(e.path.as_str()) {
            let ghost before = r.deep_view();
            r.push(e.path.clone());
            proof {
                assert(r.deep_view() =~= before.push(es[i as int].path@));
                assert(r.deep_view() =~= files_spec(es.take(i + 1)));
            }
        } else {
            proof {
                assert(files_spec(es.take(i + 1)) =~= files_spec(es.take(i as int)));
            }
        }
        i += 1;
    }
    proof {
        assert(es.take(tree.entries.len() as int) =~= es);
    }
    r
}

/// The parent directory of every file that classifies as a root, in
/// snapshot order; the same directory may appear once per qualifying file.
pub fn find_roots(tree: &FsTree) -> (r: Vec<String>)
    ensures
        r.deep_view() == roots_spec(tree.entries@),
{
    let ghost es = tree.entries@;
    let mut r: Vec<String> = Vec::new();
    let mut i: usize = 0;
    while i < tree.entries.len()
        invariant
            i <= tree.entries.len(),
            es == tree.entries@,
            r.deep_view() == roots_spec(es.take(i as int)),
        decreases tree.entries.len() - i,
    {
        proof {
            assert(es.take(i + 1).drop_last() =~= es.take(i as int));
            assert(es.take(i + 1).last() == es[i as int]);
        }
        let e = &tree.entries[i];
        let mut hit = false;
        if e.is_file && has_terraform_extension(e.path.as_str()) {
            match &e.text {
                Some(t) => {
                    if is_top_level(t.as_str()) {
                        hit = true;
                    }
                },
                None => {},
            }
        }
        proof {
            assert(hit == is_root_entry(es[i as int]));
        }
        if hit {
            let ghost before = r.deep_view();
            let d = parent(e.path.as_str());
            r.push(d);
            proof {
                assert(r.deep_view() =~= before.push(parent_of(es[i as int].path@)));
                assert(r.deep_view() =~= roots_spec(es.take(i + 1)));
            }
        } else {
            proof {
                assert(roots_spec(es.take(i + 1)) =~= roots_spec(es.take(i as int)));
            }
        }
        i += 1;
    }
    proof {
        assert(es.take(tree.entries.len() as int) =~= es);
    }
    r
}

/// Joins a root onto the address of every pair with the cross-root
/// delimiter.
pub fn string_pairs_key_prepend(prefix: &str, string_pairs: Vec<(String, String)>) -> (ret: Vec<
    (String, String),
>)
    ensures
        ret.deep_view() == prepend_all(prefix@, ':', string_pairs.deep_view()),
{
    let ghost pairs = string_pairs.deep_view();
    let mut ret: Vec<(String, String)> = Vec::new();
    let mut i: usize = 0;
    while i < string_pairs.len()
        invariant
            i <= string_pairs.len(),
            pairs == string_pairs.deep_view(),
            ret.deep_view() == prepend_all(prefix@, ':', pairs.take(i as int)),
        decreases string_pairs.len() - i,
    {
        let pair = &string_pairs[i];
        let mut s = prefix.to_owned();
        s.append(":");
        s.append(pair.0.as_str());
        ret.push((s, pair.1.clone()));
        proof {
            reveal_strlit(":");
            assert(":"@ =~= seq![':']);
            assert(pairs.take(i + 1) =~= pairs.take(i as int).push(pairs[i as int]));
            assert(prepend_all(prefix@, ':', pairs.take(i + 1)) =~= prepend_all(
                prefix@,
                ':',
                pairs.take(i as int),
            ).push((prefix@ + seq![':'] + pairs[i as int].0, pairs[i as int].1)));
            assert(ret.deep_view() =~= prepend_all(prefix@, ':', pairs.take(i + 1)));
        }
        i += 1;
    }
    proof {
        assert(pairs.take(string_pairs.len() as int) =~= pairs);
    }
    ret
}

/// Whether `p` lies under the directory `root` (or is `root` itself).
fn under_exec(root: &String, p: &String) -> (r: bool)
    ensures
        r == under(root@, p@),
{
    if *p == *root {
        return true;
    }
    let rn = root.as_str().unicode_len();
    let pn = p.as_str().unicode_len();
    if pn <= rn {
        return false;
    }
    if !(p.as_str().get_char(rn) == '/') {
        return false;
    }
    let mut k: usize = 0;
    while k < rn
        invariant
            k <= rn,
            rn == root@.len(),
            pn == p@.len(),
            pn > rn,
            forall|m: int| 0 <= m < k ==> p@[m] == root@[m],
        decreases rn - k,
    {
        if !(p.as_str().get_char(k) == root.as_str().get_char(k)) {
            proof {
                assert(p@.take(rn as int)[k as int] != root@[k as int]);
            }
            return false;
        }
        k += 1;
    }
    proof {
        assert(p@.take(rn as int) =~= root@);
    }
    true
}

/// Builds the repetition index of a scan over the given roots: every pair
/// of every parsed file under each root, inserted in order.
fn build_index(tree: &FsTree, roots: &Vec<String>) -> (r: RepetitionIndex)
    ensures
        r@ == index_spec(all_pairs(tree.entries@, roots.deep_view())),
{
    let ghost es = tree.entries@;
    let ghost rv = roots.deep_view();
    let mut index = RepetitionIndex::new();
    proof {
        assert(all_pairs(es, rv.take(0)) =~= Seq::<(Seq<char>, Seq<char>)>::empty());
    }
    let mut i: usize = 0;
    while i < roots.len()
        invariant
            i <= roots.len(),
            es == tree.entries@,
            rv == roots.deep_view(),
            index@ == index_spec(all_pairs(es, rv.take(i as int))),
        decreases roots.len() - i,
    {
        let root = &roots[i];
        let ghost rpath = rv[i as int];
        proof {
            assert(rpath == root@);
            assert(root_pairs(es.take(0), rpath) =~= Seq::<(Seq<char>, Seq<char>)>::empty());
            assert(all_pairs(es, rv.take(i as int)) + root_pairs(es.take(0), rpath) =~= all_pairs(
                es,
                rv.take(i as int),
            ));
        }
        let mut j: usize = 0;
        while j < tree.entries.len()
            invariant
                j <= tree.entries.len(),
                es == tree.entries@,
                rv == roots.deep_view(),
                i < roots.len(),
                rpath == rv[i as int],
                rpath == root@,
                index@ == index_spec(
                    all_pairs(es, rv.take(i as int)) + root_pairs(es.take(j as int), rpath),
                ),
            decreases tree.entries.len() - j,
        {
            let ghost base = all_pairs(es, rv.take(i as int)) + root_pairs(
                es.take(j as int),
                rpath,
            );
            proof {
                assert(es.take(j + 1).drop_last() =~= es.take(j as int));
                assert(es.take(j + 1).last() == es[j as int]);
                assert(root_pairs(es.take(j + 1), rpath) == root_pairs(es.take(j as int), rpath)
                    + entry_pairs(es[j as int], rpath));
            }
            let e = &tree.entries[j];
            let mut skipped = true;
            if e.is_file && has_terraform_extension(e.path.as_str()) && under_exec(root, &e.path) {
                match &e.text {
                    Some(t) => match parse(t.as_str()) {
                        Ok(doc) => {
                            skipped = false;
                            let pairs = strings(&doc);
                            let prefixed = string_pairs_key_prepend(root.as_str(), pairs);
                            let ghost pv = prefixed.deep_view();
                            proof {
                                assert(doc_of(t@) == doc@);
                                assert(admitted(es[j as int]));
                                assert(under(rpath, es[j as int].path@));
                                assert(es[j as int].text == Some(*t));
                                assert(parsed_doc(t@) is Some);
                                assert(pairs.deep_view() == strings_spec(doc_of(t@)));
                                assert(pv == prepend_all(rpath, ':', strings_spec(doc_of(t@))));
                                assert(pv == entry_pairs(es[j as int], rpath));
                                assert(base + pv.take(0) =~= base);
                            }
                            let mut k: usize = 0;
                            while k < prefixed.len()
                                invariant
                                    k <= prefixed.len(),
                                    pv == prefixed.deep_view(),
                                    index@ == index_spec(base + pv.take(k as int)),
                                decreases prefixed.len() - k,
                            {
                                let pr = &prefixed[k];
                                index.insert(pr.0.clone(), pr.1.clone());
                                proof {
                                    assert((base + pv.take(k + 1)).drop_last() =~= base + pv.take(
                                        k as int,
                                    ));
                                    assert((base + pv.take(k + 1)).last() == pv[k as int]);
                                    assert(index@ == index_spec(base + pv.take(k + 1)));
                                }
                                k += 1;
                            }
                            proof {
                                assert(base + pv.take(prefixed.len() as int) =~= base + pv);
                                assert(base + pv =~= all_pairs(es, rv.take(i as int))
                                    + root_pairs(es.take(j + 1), rpath));
                            }
                        },
                        Err(_) => {
                            proof {
                                assert(entry_pairs(es[j as int], rpath) =~= Seq::<
                                    (Seq<char>, Seq<char>),
                                >::empty());
                            }
                        },
                    },
                    None => {
                        proof {
                            assert(es[j as int].text is None);
                            assert(entry_pairs(es[j as int], rpath) =~= Seq::<
                                (Seq<char>, Seq<char>),
                            >::empty());
                        }
                    },
                }
            } else {
                proof {
                    assert(entry_pairs(es[j as int], rpath) =~= Seq::<
                        (Seq<char>, Seq<char>),
                    >::empty());
                }
            }
            proof {
                assert(base + Seq::<(Seq<char>, Seq<char>)>::empty() =~= base);
                assert(all_pairs(es, rv.take(i as int)) + root_pairs(es.take(j + 1), rpath)
                    =~= base + entry_pairs(es[j as int], rpath));
            }
            j += 1;
        }
        proof {
            assert(es.take(tree.entries.len() as int) =~= es);
            assert(rv.take(i + 1).drop_last() =~= rv.take(i as int));
            assert(rv.take(i + 1).last() == rv[i as int]);
            assert(all_pairs(es, rv.take(i + 1)) == all_pairs(es, rv.take(i as int)) + root_pairs(
                es,
                rpath,
            ));
        }
        i += 1;
    }
    proof {
        assert(rv.take(roots.len() as int) =~= rv);
    }
    index
}

proof fn lemma_roots_spec_empty(es: Seq<FsEntry>)
    requires
        forall|i: int| 0 <= i < es.len() ==> !is_root_entry(es[i]),
    ensures
        roots_spec(es) == Seq::<Seq<char>>::empty(),
    decreases es.len(),
{
    if es.len() > 0 {
        assert forall|i: int| 0 <= i < es.drop_last().len() implies !is_root_entry(
            es.drop_last()[i],
        ) by {
            assert(es.drop_last()[i] == es[i]);
        }
        lemma_roots_spec_empty(es.drop_last());
        assert(es.last() == es[es.len() - 1]);
        assert(roots_spec(es) =~= Seq::<Seq<char>>::empty());
    } else {
        assert(roots_spec(es) =~= Seq::<Seq<char>>::empty());
    }
}

/// When no file anywhere in the snapshot satisfies the root schema, root
/// discovery finds nothing and the scan falls back to the starting path as
/// its sole root.
pub proof fn lemma_no_roots_fallback(path: Seq<char>, es: Seq<FsEntry>, min: nat)
    requires
        forall|i: int| 0 <= i < es.len() ==> !is_root_entry(es[i]),
    ensures
        roots_spec(es) == Seq::<Seq<char>>::empty(),
        report_spec(path, es, min) == ranked(index_spec(all_pairs(es, seq![path])), min),
{
    lemma_roots_spec_empty(es);
}

/// A scan is a function of the snapshot alone: two scans of an unchanged
/// tree under the same threshold yield identical reports.
pub proof fn lemma_scan_deterministic(
    path: Seq<char>,
    es: Seq<FsEntry>,
    min: nat,
    r1: Seq<EntryV>,
    r2: Seq<EntryV>,
)
    requires
        r1 == report_spec(path, es, min),
        r2 == report_spec(path, es, min),
    ensures
        r1 == r2,
{
}

/// Between two values with unequal address counts, the one with the greater
/// count stands no later in a scan's report.
pub proof fn lemma_report_sorted(path: Seq<char>, es: Seq<FsEntry>, min: nat)
    ensures
        forall|i: int, j: int|
            0 <= i <= j < report_spec(path, es, min).len() ==> report_spec(
                path,
                es,
                min,
            )[i].addresses.len() >= report_spec(path, es, min)[j].addresses.len(),
{
    crate::report::lemma_ranked_sorted(index_spec(all_pairs(es, used_roots(path, es))), min);
}

/// Raising the threshold only filters a scan's report: the report under the
/// higher threshold is the lower-threshold report with its small entries
/// removed, so its value keys are a subset and the shared entries keep their
/// relative order.
pub proof fn lemma_report_threshold(path: Seq<char>, es: Seq<FsEntry>, t1: nat, t2: nat)
    requires
        t1 <= t2,
    ensures
        report_spec(path, es, t2) == crate::report::keep_ge(report_spec(path, es, t1), t2),
{
    crate::report::lemma_ranked_threshold(index_spec(all_pairs(es, used_roots(path, es))), t1, t2);
}

/// A value occurring exactly once across the whole scan never appears in a
/// report produced with a threshold of two or more.
pub proof fn lemma_single_occurrence_never_reported(
    path: Seq<char>,
    es: Seq<FsEntry>,
    min: nat,
    v: Seq<char>,
)
    requires
        crate::report::pair_count(all_pairs(es, used_roots(path, es)), v) == 1,
        min >= 2,
    ensures
        forall|k: int|
            0 <= k < report_spec(path, es, min).len() ==> report_spec(path, es, min)[k].value != v,
{
    crate::report::lemma_once_never_reported(all_pairs(es, used_roots(path, es)), v, min);
}

/// No value appears twice in a scan's report: its value keys stay unique.
pub proof fn lemma_report_keys_unique(path: Seq<char>, es: Seq<FsEntry>, min: nat)
    ensures
        forall|k1: int, k2: int|
            #![trigger report_spec(path, es, min)[k1], report_spec(path, es, min)[k2]]
            0 <= k1 < k2 < report_spec(path, es, min).len() ==> report_spec(
                path,
                es,
                min,
            )[k1].value != report_spec(path, es, min)[k2].value,
{
    crate::report::lemma_index_spec_wf(all_pairs(es, used_roots(path, es)));
    crate::report::lemma_ranked_keys_unique(index_spec(all_pairs(es, used_roots(path, es))), min);
}

/// The full scan: discover roots (falling back to the starting path when
/// none is found), aggregate every file's leaf pairs into the repetition
/// index, and rank and prune it under the threshold.
pub fn string_repetitions(tree: &FsTree, min_repetitions: usize) -> (r: RepetitionIndex)
    ensures
        r@ == report_spec(tree.path@, tree.entries@, min_repetitions as nat),
{
    let roots = find_roots(tree);
    let index = if roots.len() == 0 {
        let mut single: Vec<String> = Vec::new();
        single.push(tree.path.clone());
        proof {
            assert(single.deep_view() =~= seq![tree.path@]);
        }
        build_index(tree, &single)
    } else {
        build_index(tree, &roots)
    };
    index.rank(min_repetitions)
}

} // verus!
