//! Root classification and string extraction over parsed documents.
//!
//! Classification holds a document against a narrow schema — a single
//! top-level `terraform` block containing a single `backend` section for the
//! one recognized backend kind, which must carry a `bucket` field — and
//! exists only to identify root directories.  Extraction walks a document
//! and yields every (address, literal string) leaf pair, the address being
//! the dot-joined path of block selectors and attribute or mapping keys
//! leading to the leaf.

use vstd::prelude::*;
use vstd::string::StringExecFns;

use crate::document::{
    entries_view, expr_view, node_view, nodes_view, parse_hcl, parsed_doc, Document, Expr, ExprV,
    Node, NodeV, ObjKey, ObjKeyV,
};

verus! {

// ------------------------------------------------------------------
// Extraction: the leaf pairs of a document.
// ------------------------------------------------------------------

/// Every pair of `pairs` with `prefix`, `sep` and the pair's own address
/// joined into one address.
pub open spec fn prepend_all(
    prefix: Seq<char>,
    sep: char,
    pairs: Seq<(Seq<char>, Seq<char>)>,
) -> Seq<(Seq<char>, Seq<char>)> {
    Seq::new(pairs.len(), |i: int| (prefix + seq![sep] + pairs[i].0, pairs[i].1))
}

/// `.label` for each label, concatenated.
pub open spec fn labels_suffix(labels: Seq<Seq<char>>) -> Seq<char>
    decreases labels.len(),
{
    if labels.len() == 0 {
        Seq::empty()
    } else {
        labels_suffix(labels.drop_last()) + seq!['.'] + labels.last()
    }
}

/// The address segment a block contributes: its identifier, joined with its
/// labels by `.` when it has any.
pub open spec fn block_prefix(ident: Seq<char>, labels: Seq<Seq<char>>) -> Seq<char> {
    ident + labels_suffix(labels)
}

/// The (address, literal string) leaf pairs of a node sequence, in document
/// order.
pub open spec fn strings_spec(ns: Seq<NodeV>) -> Seq<(Seq<char>, Seq<char>)>
    decreases ns,
{
    if ns.len() == 0 {
        Seq::empty()
    } else {
        node_strings(ns[0]) + strings_spec(ns.subrange(1, ns.len() as int))
    }
}

/// The leaf pairs of one node: a string attribute yields its own leaf, a
/// mapping attribute recurses with its key as a segment, a block recurses
/// with its selector as a segment, anything else yields nothing.
pub open spec fn node_strings(n: NodeV) -> Seq<(Seq<char>, Seq<char>)>
    decreases n,
{
    match n {
        NodeV::Attr { key, expr } => match expr {
            ExprV::Str(s) => seq![(key, s)],
            ExprV::Object(entries) => prepend_all(key, '.', object_strings_spec(entries)),
            ExprV::Other => Seq::empty(),
        },
        NodeV::Block { ident, labels, body } => prepend_all(
            block_prefix(ident, labels),
            '.',
            strings_spec(body),
        ),
    }
}

/// The leaf pairs of a keyed mapping, in entry order.
pub open spec fn object_strings_spec(entries: Seq<(ObjKeyV, ExprV)>) -> Seq<
    (Seq<char>, Seq<char>),
>
    decreases entries,
{
    if entries.len() == 0 {
        Seq::empty()
    } else {
        entry_strings(entries[0]) + object_strings_spec(
            entries.subrange(1, entries.len() as int),
        )
    }
}

/// The leaf pairs of one mapping entry; entries under a dynamic key are
/// skipped.
pub open spec fn entry_strings(entry: (ObjKeyV, ExprV)) -> Seq<(Seq<char>, Seq<char>)>
    decreases entry,
{
    match entry.0 {
        ObjKeyV::Ident(k) => match entry.1 {
            ExprV::Str(s) => seq![(k, s)],
            ExprV::Object(o) => prepend_all(k, '.', object_strings_spec(o)),
            ExprV::Other => Seq::empty(),
        },
        ObjKeyV::Other => Seq::empty(),
    }
}

proof fn lemma_strings_spec_push(s: Seq<NodeV>, x: NodeV)
    ensures
        strings_spec(s.push(x)) == strings_spec(s) + node_strings(x),
    decreases s.len(),
{
    if s.len() == 0 {
        assert(s.push(x)[0] == x);
        assert(s.push(x).subrange(1, 1) =~= Seq::<NodeV>::empty());
        assert(strings_spec(s.push(x)) == node_strings(x) + strings_spec(Seq::<NodeV>::empty()));
        assert(strings_spec(s.push(x)) =~= strings_spec(s) + node_strings(x));
    } else {
        let t = s.subrange(1, s.len() as int);
        assert(s.push(x)[0] == s[0]);
        assert(s.push(x).subrange(1, s.len() as int + 1) =~= t.push(x));
        lemma_strings_spec_push(t, x);
        assert(strings_spec(s.push(x)) == node_strings(s[0]) + (strings_spec(t) + node_strings(
            x,
        )));
        assert(strings_spec(s) == node_strings(s[0]) + strings_spec(t));
        assert(strings_spec(s.push(x)) =~= strings_spec(s) + node_strings(x));
    }
}

proof fn lemma_object_strings_spec_push(s: Seq<(ObjKeyV, ExprV)>, x: (ObjKeyV, ExprV))
    ensures
        object_strings_spec(s.push(x)) == object_strings_spec(s) + entry_strings(x),
    decreases s.len(),
{
    if s.len() == 0 {
        assert(s.push(x)[0] == x);
        assert(s.push(x).subrange(1, 1) =~= Seq::<(ObjKeyV, ExprV)>::empty());
        assert(object_strings_spec(s.push(x)) == entry_strings(x) + object_strings_spec(
            Seq::<(ObjKeyV, ExprV)>::empty(),
        ));
        assert(object_strings_spec(s.push(x)) =~= object_strings_spec(s) + entry_strings(x));
    } else {
        let t = s.subrange(1, s.len() as int);
        assert(s.push(x)[0] == s[0]);
        assert(s.push(x).subrange(1, s.len() as int + 1) =~= t.push(x));
        lemma_object_strings_spec_push(t, x);
        assert(object_strings_spec(s.push(x)) == entry_strings(s[0]) + (object_strings_spec(t)
            + entry_strings(x)));
        assert(object_strings_spec(s) == entry_strings(s[0]) + object_strings_spec(t));
        assert(object_strings_spec(s.push(x)) =~= object_strings_spec(s) + entry_strings(x));
    }
}

// ------------------------------------------------------------------
// The root schema.
// ------------------------------------------------------------------

/// Configuration of the one recognized backend kind: a mandatory bucket.
pub struct S3BackendConfig {
    pub bucket: String,
}

/// A recognized remote-state backend.
pub enum BackendConfig {
    S3(S3BackendConfig),
}

/// The remote-state section of a root configuration file.
pub struct TerraformBlock {
    pub backend: BackendConfig,
}

/// The schema a file must satisfy for its directory to be a root.
pub struct TopLevel {
    pub terraform: TerraformBlock,
}

/// Why a text failed to produce a `TopLevel`.
#[derive(Clone, Copy, Debug, PartialEq, Eq)]
pub enum ParseError {
    /// The text is not well-formed configuration.
    Syntax,
    /// The text parsed but does not satisfy the root schema.
    Schema,
}

/// Whether `n` is a block whose identifier is `name`.
pub open spec fn is_named_block(n: NodeV, name: Seq<char>) -> bool {
    match n {
        NodeV::Block { ident, .. } => ident == name,
        _ => false,
    }
}

/// How many blocks of `ns` are named `name`.
pub open spec fn count_named(ns: Seq<NodeV>, name: Seq<char>) -> nat
    decreases ns.len(),
{
    if ns.len() == 0 {
        0
    } else {
        count_named(ns.drop_last(), name) + if is_named_block(ns.last(), name) {
            1nat
        } else {
            0nat
        }
    }
}

/// The index of the first block of `ns` named `name`, or -1.
pub open spec fn first_named(ns: Seq<NodeV>, name: Seq<char>) -> int
    decreases ns.len(),
{
    if ns.len() == 0 {
        -1
    } else {
        let r = first_named(ns.drop_last(), name);
        if r >= 0 {
            r
        } else if is_named_block(ns.last(), name) {
            ns.len() - 1
        } else {
            -1
        }
    }
}

/// Whether `n` is an attribute named `bucket` whose value is a string
/// literal.
pub open spec fn is_bucket_attr(n: NodeV) -> bool {
    match n {
        NodeV::Attr { key, expr } => key == "bucket"@ && expr is Str,
        _ => false,
    }
}

/// The index of the first bucket attribute of `ns`, or -1.
pub open spec fn first_bucket(ns: Seq<NodeV>) -> int
    decreases ns.len(),
{
    if ns.len() == 0 {
        -1
    } else {
        let r = first_bucket(ns.drop_last());
        if r >= 0 {
            r
        } else if is_bucket_attr(ns.last()) {
            ns.len() - 1
        } else {
            -1
        }
    }
}

pub open spec fn block_body(n: NodeV) -> Seq<NodeV> {
    match n {
        NodeV::Block { body, .. } => body,
        _ => Seq::empty(),
    }
}

pub open spec fn block_labels_of(n: NodeV) -> Seq<Seq<char>> {
    match n {
        NodeV::Block { labels, .. } => labels,
        _ => Seq::empty(),
    }
}

pub open spec fn attr_expr(n: NodeV) -> ExprV {
    match n {
        NodeV::Attr { expr, .. } => expr,
        _ => ExprV::Other,
    }
}

pub open spec fn str_of(e: ExprV) -> Seq<char> {
    match e {
        ExprV::Str(s) => s,
        _ => Seq::empty(),
    }
}

/// The document's single `terraform` block, when classification holds.
pub open spec fn terraform_section(doc: Seq<NodeV>) -> NodeV {
    doc[first_named(doc, "terraform"@)]
}

/// The terraform block's single `backend` section, when classification
/// holds.
pub open spec fn backend_section(doc: Seq<NodeV>) -> NodeV {
    let body = block_body(terraform_section(doc));
    body[first_named(body, "backend"@)]
}

/// The root schema over a parsed document: exactly one top-level block
/// `terraform` without labels; inside it exactly one block `backend`, whose
/// single label names the one recognized backend kind; and inside that a
/// `bucket` attribute with a string value.  Every other field is ignored.
pub open spec fn classifies(doc: Seq<NodeV>) -> bool {
    &&& count_named(doc, "terraform"@) == 1
    &&& block_labels_of(terraform_section(doc)).len() == 0
    &&& count_named(block_body(terraform_section(doc)), "backend"@) == 1
    &&& block_labels_of(backend_section(doc)).len() == 1
    &&& block_labels_of(backend_section(doc))[0] == "s3"@
    &&& exists|i: int|
        0 <= i < block_body(backend_section(doc)).len() && is_bucket_attr(
            block_body(backend_section(doc))[i],
        )
}

/// The bucket named by a classified document: the value of the first bucket
/// attribute of its backend section.
pub open spec fn doc_bucket(doc: Seq<NodeV>) -> Seq<char> {
    let body = block_body(backend_section(doc));
    str_of(attr_expr(body[first_bucket(body)]))
}

/// The parsed image of `text`, empty on a syntax error.
pub open spec fn doc_of(text: Seq<char>) -> Seq<NodeV> {
    match parsed_doc(text) {
        Some(d) => d,
        None => Seq::empty(),
    }
}

/// Whether `text` marks its file's directory as a root.
pub open spec fn is_root_text(text: Seq<char>) -> bool {
    parsed_doc(text) is Some && classifies(doc_of(text))
}

proof fn lemma_first_named_props(ns: Seq<NodeV>, name: Seq<char>)
    ensures
        first_named(ns, name) >= -1,
        first_named(ns, name) >= 0 ==> 0 <= first_named(ns, name) < ns.len() && is_named_block(
            ns[first_named(ns, name)],
            name,
        ),
        first_named(ns, name) >= 0 <==> count_named(ns, name) >= 1,
    decreases ns.len(),
{
    if ns.len() > 0 {
        lemma_first_named_props(ns.drop_last(), name);
    }
}

proof fn lemma_first_bucket_props(ns: Seq<NodeV>)
    ensures
        first_bucket(ns) >= -1,
        first_bucket(ns) >= 0 ==> 0 <= first_bucket(ns) < ns.len() && is_bucket_attr(
            ns[first_bucket(ns)],
        ),
        first_bucket(ns) >= 0 <==> exists|i: int| 0 <= i < ns.len() && is_bucket_attr(ns[i]),
    decreases ns.len(),
{
    if ns.len() > 0 {
        lemma_first_bucket_props(ns.drop_last());
        if exists|i: int| 0 <= i < ns.len() && is_bucket_attr(ns[i]) {
            let i = choose|i: int| 0 <= i < ns.len() && is_bucket_attr(ns[i]);
            if i < ns.len() - 1 {
                assert(ns.drop_last()[i] == ns[i]);
            }
            assert(first_bucket(ns) >= 0);
        }
    }
}

/// Joins `prefix` onto the address of every pair with the in-file delimiter.
pub fn string_pairs_key_prepend(prefix: &str, string_pairs: Vec<(String, String)>) -> (ret: Vec<
    (String, String),
>)
    ensures
        ret.deep_view() == prepend_all(prefix@, '.', string_pairs.deep_view()),
{
    let ghost pairs = string_pairs.deep_view();
    let mut ret: Vec<(String, String)> = Vec::new();
    let mut i: usize = 0;
    while i < string_pairs.len()
        invariant
            i <= string_pairs.len(),
            pairs == string_pairs.deep_view(),
            ret.deep_view() == prepend_all(prefix@, '.', pairs.take(i as int)),
        decreases string_pairs.len() - i,
    {
        let pair = &string_pairs[i];
        let mut s = prefix.to_owned();
        s.append(".");
        s.append(pair.0.as_str());
        ret.push((s, pair.1.clone()));
        proof {
            reveal_strlit(".");
            assert("."@ =~= seq!['.']);
            assert(pairs.take(i + 1) =~= pairs.take(i as int).push(pairs[i as int]));
            assert(prepend_all(prefix@, '.', pairs.take(i + 1)) =~= prepend_all(
                prefix@,
                '.',
                pairs.take(i as int),
            ).push((prefix@ + seq!['.'] + pairs[i as int].0, pairs[i as int].1)));
            assert(ret.deep_view() =~= prepend_all(prefix@, '.', pairs.take(i + 1)));
        }
        i += 1;
    }
    proof {
        assert(pairs.take(string_pairs.len() as int) =~= pairs);
    }
    ret
}

/// The address segment of a block: its identifier, with its labels appended
/// behind `.` delimiters.
fn block_prefix_exec(ident: &String, labels: &Vec<String>) -> (r: String)
    ensures
        r@ == block_prefix(ident@, labels.deep_view()),
{
    let ghost lv = labels.deep_view();
    let mut s = ident.clone();
    let mut i: usize = 0;
    while i < labels.len()
        invariant
            i <= labels.len(),
            lv == labels.deep_view(),
            s@ == block_prefix(ident@, lv.take(i as int)),
        decreases labels.len() - i,
    {
        s.append(".");
        s.append(labels[i].as_str());
        proof {
            reveal_strlit(".");
            assert("."@ =~= seq!['.']);
            assert(lv.take(i + 1) =~= lv.take(i as int).push(lv[i as int]));
            assert(lv.take(i + 1).drop_last() =~= lv.take(i as int));
            assert(s@ =~= block_prefix(ident@, lv.take(i + 1)));
        }
        i += 1;
    }
    proof {
        assert(lv.take(labels.len() as int) =~= lv);
    }
    s
}

/// The leaf pairs of a keyed mapping: entries under an identifier key are
/// explored, string values yield a leaf, nested mappings recurse with the
/// entry's key as an address segment, anything else is dropped.
pub fn object_strings(object: &Vec<(ObjKey, Expr)>) -> (ret: Vec<(String, String)>)
    ensures
        ret.deep_view() == object_strings_spec(entries_view(object@)),
    decreases *object,
{
    let ghost ev = entries_view(object@);
    let mut ret: Vec<(String, String)> = Vec::new();
    let mut i: usize = 0;
    while i < object.len()
        invariant
            i <= object.len(),
            ev == entries_view(object@),
            ret.deep_view() == object_strings_spec(ev.take(i as int)),
        decreases object.len() - i,
    {
        proof {
            assert(ev.take(i + 1) =~= ev.take(i as int).push(ev[i as int]));
            lemma_object_strings_spec_push(ev.take(i as int), ev[i as int]);
        }
        let entry = &object[i];
        match &entry.0 {
            ObjKey::Ident(k) => match &entry.1 {
                Expr::Str(s) => {
                    ret.push((k.clone(), s.clone()));
                    proof {
                        assert(ret.deep_view() =~= object_strings_spec(ev.take(i + 1)));
                    }
                },
                Expr::Object(o) => {
                    let pairs = object_strings(o);
                    proof {
                        assert(entries_view(o@) =~= expr_view(entry.1)->Object_0);
                    }
                    let mut prefixed = string_pairs_key_prepend(k.as_str(), pairs);
                    ret.append(&mut prefixed);
                    proof {
                        assert(ret.deep_view() =~= object_strings_spec(ev.take(i + 1)));
                    }
                },
                Expr::Other => {
                    proof {
                        assert(ret.deep_view() =~= object_strings_spec(ev.take(i + 1)));
                    }
                },
            },
            ObjKey::Other => {
                proof {
                    assert(ret.deep_view() =~= object_strings_spec(ev.take(i + 1)));
                }
            },
        }
        i += 1;
    }
    proof {
        assert(ev.take(object.len() as int) =~= ev);
    }
    ret
}

/// The complete set of (address, literal string) leaf pairs of a document,
/// in document order.
pub fn strings(body: &Document) -> (ret: Vec<(String, String)>)
    ensures
        ret.deep_view() == strings_spec(body@),
    decreases *body,
{
    let ghost dv = body@;
    let mut ret: Vec<(String, String)> = Vec::new();
    let mut i: usize = 0;
    while i < body.nodes.len()
        invariant
            i <= body.nodes.len(),
            dv == body@,
            ret.deep_view() == strings_spec(dv.take(i as int)),
        decreases body.nodes.len() - i,
    {
        proof {
            assert(dv.take(i + 1) =~= dv.take(i as int).push(dv[i as int]));
            lemma_strings_spec_push(dv.take(i as int), dv[i as int]);
        }
        match &body.nodes[i] {
            Node::Attr { key, expr } => match expr {
                Expr::Str(s) => {
                    ret.push((key.clone(), s.clone()));
                    proof {
                        assert(ret.deep_view() =~= strings_spec(dv.take(i + 1)));
                    }
                },
                Expr::Object(entries) => {
                    let pairs = object_strings(entries);
                    proof {
                        assert(entries_view(entries@) =~= expr_view(*expr)->Object_0);
                    }
                    let mut prefixed = string_pairs_key_prepend(key.as_str(), pairs);
                    ret.append(&mut prefixed);
                    proof {
                        assert(ret.deep_view() =~= strings_spec(dv.take(i + 1)));
                    }
                },
                Expr::Other => {
                    proof {
                        assert(ret.deep_view() =~= strings_spec(dv.take(i + 1)));
                    }
                },
            },
            Node::Block { ident, labels, body: inner } => {
                let prefix = block_prefix_exec(ident, labels);
                let pairs = strings(inner);
                proof {
                    assert(nodes_view(inner.nodes@) =~= node_view(body.nodes@[i as int])->Block_body);
                    assert(labels.deep_view() =~= node_view(body.nodes@[i as int])->Block_labels);
                }
                let mut prefixed = string_pairs_key_prepend(prefix.as_str(), pairs);
                ret.append(&mut prefixed);
                proof {
                    assert(ret.deep_view() =~= strings_spec(dv.take(i + 1)));
                }
            },
        }
        i += 1;
    }
    proof {
        assert(dv.take(body.nodes.len() as int) =~= dv);
    }
    ret
}

/// Counts the blocks of `nodes` named `name` and finds the first of them.
fn scan_named(nodes: &Vec<Node>, name: &String) -> (r: (usize, usize))
    ensures
        r.0 as nat == count_named(nodes_view(nodes@), name@),
        count_named(nodes_view(nodes@), name@) >= 1 ==> r.1 as int == first_named(
            nodes_view(nodes@),
            name@,
        ),
{
    let ghost ns = nodes_view(nodes@);
    let mut count: usize = 0;
    let mut idx: usize = 0;
    let mut found = false;
    let mut i: usize = 0;
    while i < nodes.len()
        invariant
            i <= nodes.len(),
            ns == nodes_view(nodes@),
            count <= i,
            count as nat == count_named(ns.take(i as int), name@),
            found <==> first_named(ns.take(i as int), name@) >= 0,
            found ==> idx as int == first_named(ns.take(i as int), name@),
            found <==> count >= 1,
        decreases nodes.len() - i,
    {
        let ghost nv = ns[i as int];
        proof {
            lemma_first_named_props(ns.take(i as int), name@);
            assert(ns.take(i + 1).drop_last() =~= ns.take(i as int));
            assert(ns.take(i + 1).last() == ns[i as int]);
            assert(nv == node_view(nodes@[i as int]));
        }
        let is_match = match &nodes[i] {
            Node::Block { ident, .. } => {
                let m = *ident == *name;
                proof {
                    assert(m == is_named_block(nv, name@));
                }
                m
            },
            Node::Attr { .. } => {
                proof {
                    assert(!is_named_block(nv, name@));
                }
                false
            },
        };
        proof {
            assert(count_named(ns.take(i + 1), name@) == count_named(ns.take(i as int), name@)
                + if is_named_block(nv, name@) {
                1nat
            } else {
                0nat
            });
            assert(first_named(ns.take(i + 1), name@) == (if first_named(
                ns.take(i as int),
                name@,
            ) >= 0 {
                first_named(ns.take(i as int), name@)
            } else if is_named_block(nv, name@) {
                i as int
            } else {
                -1
            }));
        }
        if is_match {
            count = count + 1;
            if !found {
                found = true;
                idx = i;
            }
        }
        i += 1;
    }
    proof {
        assert(ns.take(nodes.len() as int) =~= ns);
        lemma_first_named_props(ns, name@);
    }
    (count, idx)
}

/// The value of the first `bucket` attribute of `nodes` holding a string
/// literal, if any.
fn find_bucket_value(nodes: &Vec<Node>, name: &String) -> (r: Option<String>)
    requires
        name@ == "bucket"@,
    ensures
        r is Some <==> exists|i: int|
            0 <= i < nodes_view(nodes@).len() && is_bucket_attr(nodes_view(nodes@)[i]),
        r matches Some(b) ==> b@ == str_of(
            attr_expr(nodes_view(nodes@)[first_bucket(nodes_view(nodes@))]),
        ),
{
    let ghost ns = nodes_view(nodes@);
    let mut res: Option<String> = None;
    let mut i: usize = 0;
    while i < nodes.len()
        invariant
            i <= nodes.len(),
            ns == nodes_view(nodes@),
            name@ == "bucket"@,
            res is Some <==> first_bucket(ns.take(i as int)) >= 0,
            res matches Some(b) ==> b@ == str_of(
                attr_expr(ns.take(i as int)[first_bucket(ns.take(i as int))]),
            ),
        decreases nodes.len() - i,
    {
        let ghost nv = ns[i as int];
        proof {
            lemma_first_bucket_props(ns.take(i as int));
            assert(ns.take(i + 1).drop_last() =~= ns.take(i as int));
            assert(ns.take(i + 1).last() == ns[i as int]);
            assert(nv == node_view(nodes@[i as int]));
        }
        let hit: Option<String> = match &nodes[i] {
            Node::Attr { key, expr } => match expr {
                Expr::Str(s) => {
                    let m = *key == *name;
                    proof {
                        assert(m == is_bucket_attr(nv));
                        assert(m ==> str_of(attr_expr(nv)) == s@);
                    }
                    if m {
                        Some(s.clone())
                    } else {
                        None
                    }
                },
                Expr::Object(_) => {
                    proof {
                        assert(!is_bucket_attr(nv));
                    }
                    None
                },
                Expr::Other => {
                    proof {
                        assert(!is_bucket_attr(nv));
                    }
                    None
                },
            },
            Node::Block { .. } => {
                proof {
                    assert(!is_bucket_attr(nv));
                }
                None
            },
        };
        proof {
            assert(first_bucket(ns.take(i + 1)) == (if first_bucket(ns.take(i as int)) >= 0 {
                first_bucket(ns.take(i as int))
            } else if is_bucket_attr(nv) {
                i as int
            } else {
                -1
            }));
        }
        if res.is_none() {
            res = hit;
        }
        i += 1;
    }
    proof {
        assert(ns.take(nodes.len() as int) =~= ns);
        lemma_first_bucket_props(ns);
    }
    res
}

/// Parses one file's text into a document; a failure is never fatal to a
/// scan, the file is merely skipped.
pub fn parse(text: &str) -> (r: Result<Document, ParseError>)
    ensures
        r matches Ok(d) ==> parsed_doc(text@) == Some(d@),
        r is Ok <==> parsed_doc(text@) is Some,
        r is Err ==> r == Err::<Document, ParseError>(ParseError::Syntax),
{
    match parse_hcl(text) {
        Ok(d) => Ok(d),
        Err(_) => Err(ParseError::Syntax),
    }
}

impl TopLevel {
    /// Parses `text` and holds it against the root schema.
    pub fn parse(text: &str) -> (r: Result<TopLevel, ParseError>)
        ensures
            r is Ok <==> is_root_text(text@),
            r matches Ok(t) ==> (t.terraform.backend matches BackendConfig::S3(c) && c.bucket@
                == doc_bucket(doc_of(text@))),
            r == Err::<TopLevel, ParseError>(ParseError::Syntax) <==> parsed_doc(text@) is None,
            r == Err::<TopLevel, ParseError>(ParseError::Schema) <==> (parsed_doc(text@) is Some
                && !classifies(doc_of(text@))),
    {
        let doc = match parse(text) {
            Ok(d) => d,
            Err(_) => {
                return Err(ParseError::Syntax);
            },
        };
        let ghost dv = doc_of(text@);
        proof {
            assert(dv == doc@);
        }
        let tf_name: String = "terraform".to_owned();
        let be_name: String = "backend".to_owned();
        let s3_name: String = "s3".to_owned();
        let bucket_name: String = "bucket".to_owned();
        let (tf_count, tf_idx) = scan_named(&doc.nodes, &tf_name);
        if tf_count != 1 {
            return Err(ParseError::Schema);
        }
        proof {
            lemma_first_named_props(dv, "terraform"@);
        }
        match &doc.nodes[tf_idx] {
            Node::Block { labels, body: tf_body, .. } => {
                proof {
                    assert(node_view(doc.nodes@[tf_idx as int]) == terraform_section(dv));
                    assert(block_body(terraform_section(dv)) =~= nodes_view(tf_body.nodes@));
                    assert(block_labels_of(terraform_section(dv)) =~= labels.deep_view());
                }
                if labels.len() != 0 {
                    return Err(ParseError::Schema);
                }
                let (be_count, be_idx) = scan_named(&tf_body.nodes, &be_name);
                if be_count != 1 {
                    return Err(ParseError::Schema);
                }
                proof {
                    lemma_first_named_props(nodes_view(tf_body.nodes@), "backend"@);
                }
                match &tf_body.nodes[be_idx] {
                    Node::Block { labels: be_labels, body: be_body, .. } => {
                        proof {
                            assert(node_view(tf_body.nodes@[be_idx as int]) == backend_section(
                                dv,
                            ));
                            assert(block_body(backend_section(dv)) =~= nodes_view(
                                be_body.nodes@,
                            ));
                            assert(block_labels_of(backend_section(dv)) =~= be_labels.deep_view());
                        }
                        if be_labels.len() != 1 {
                            return Err(ParseError::Schema);
                        }
                        if !(be_labels[0] == s3_name) {
                            return Err(ParseError::Schema);
                        }
                        match find_bucket_value(&be_body.nodes, &bucket_name) {
                            Some(bucket) => Ok(
                                TopLevel {
                                    terraform: TerraformBlock {
                                        backend: BackendConfig::S3(S3BackendConfig { bucket }),
                                    },
                                },
                            ),
                            None => Err(ParseError::Schema),
                        }
                    },
                    Node::Attr { .. } => {
                        proof {
                            assert(false);
                        }
                        Err(ParseError::Schema)
                    },
                }
            },
            Node::Attr { .. } => {
                proof {
                    assert(false);
                }
                Err(ParseError::Schema)
            },
        }
    }
}

/// Whether the text of a configuration file marks its directory as a root.
pub fn is_top_level(text: &str) -> (r: bool)
    ensures
        r == is_root_text(text@),
{
    TopLevel::parse(text).is_ok()
}

} // verus!
