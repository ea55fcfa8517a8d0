use vstd::prelude::*;
use vstd::utf8::encode_utf8;
use crate::xml_tree::{
    lemma_first_named_is, lemma_first_named_none, lemma_mask_filter_determined,
    lemma_mask_filter_sub, lemma_nodes_view_index, mask_filter, node_view, node_wf, nodes_view,
    str_eq, XmlError, XmlNode, XmlNodeView, XmlTree,
};

verus! {

// ---------------------------------------------------------------------------
// The metalink rewriting policy: inside the `files` element, inside each
// `file`, inside its `resources`, keep only the mirror entries whose text
// begins with the HTTP scheme marker.  The filter is by scheme alone, the
// same for every view; filtering by the resolved view is a deliberate
// extension point, not current behaviour.
// ---------------------------------------------------------------------------

/// A mirror entry is kept when its text begins with "http" (which also
/// covers "https").
pub open spec fn is_http_url(v: XmlNodeView) -> bool {
    match v.characters {
        Some(t) => {
            let b = encode_utf8(t);
            b.len() >= 4 && b[0] == 104u8 && b[1] == 116u8 && b[2] == 116u8 && b[3] == 112u8
        },
        None => false,
    }
}

/// A resources node after rewriting: only its HTTP mirror entries stay.
pub open spec fn resources_filtered(v: XmlNodeView) -> XmlNodeView {
    XmlNodeView {
        name: v.name,
        attributes: v.attributes,
        characters: v.characters,
        children: v.children.filter(|u: XmlNodeView| is_http_url(u)),
    }
}

/// A file node after rewriting: its first `resources` child, if any, is
/// filtered; everything else stays.
pub open spec fn file_rewritten(v: XmlNodeView) -> XmlNodeView {
    match crate::xml_tree::first_named(v.children, "resources"@) {
        None => v,
        Some(i) => XmlNodeView {
            name: v.name,
            attributes: v.attributes,
            characters: v.characters,
            children: v.children.update(i, resources_filtered(v.children[i])),
        },
    }
}

/// The files node after rewriting: each `file` child is rewritten, other
/// children stay.
pub open spec fn files_rewritten(v: XmlNodeView) -> XmlNodeView {
    XmlNodeView {
        name: v.name,
        attributes: v.attributes,
        characters: v.characters,
        children: v.children.map_values(
            |c: XmlNodeView|
                if c.name == "file"@ {
                    file_rewritten(c)
                } else {
                    c
                },
        ),
    }
}

/// A whole document root after rewriting: its first `files` child, if any,
/// is rewritten; everything else stays.
pub open spec fn metalink_rewritten(v: XmlNodeView) -> XmlNodeView {
    match crate::xml_tree::first_named(v.children, "files"@) {
        None => v,
        Some(i) => XmlNodeView {
            name: v.name,
            attributes: v.attributes,
            characters: v.characters,
            children: v.children.update(i, files_rewritten(v.children[i])),
        },
    }
}

/// Does this mirror entry's text begin with the HTTP scheme marker?
fn node_is_http_url(n: &XmlNode) -> (r: bool)
    ensures
        r == is_http_url(node_view(*n)),
{
    match &n.characters {
        None => false,
        Some(t) => {
            let b = t.as_str().as_bytes();
            b.len() >= 4 && b[0] == 104u8 && b[1] == 116u8 && b[2] == 116u8 && b[3] == 112u8
        },
    }
}

/// Keep only the HTTP mirror entries of a `resources` node.
pub fn filter_resources(node: &mut XmlNode)
    requires
        node_wf(*old(node)),
    ensures
        node_wf(*final(node)),
        node_view(*final(node)) == resources_filtered(node_view(*old(node))),
{
    let ghost orig = old(node).children@;
    let keep_http = |c: &XmlNode| -> (r: bool)
        ensures
            r == is_http_url(node_view(*c)),
        { node_is_http_url(c) };
    node.filter_children_in_place(keep_http);
    proof {
        let d = choose|d: Seq<bool>|
            {
                &&& d.len() == orig.len()
                &&& node.children@ == mask_filter(orig, d)
                &&& forall|i: int|
                    0 <= i < d.len() ==> call_ensures(keep_http, (&orig[i],), d[i])
            };
        assert forall|i: int| 0 <= i < orig.len() implies d[i] == (|v: XmlNodeView|
            is_http_url(v))(node_view(#[trigger] orig[i])) by {}
        lemma_mask_filter_determined(orig, d, |v: XmlNodeView| is_http_url(v));
        assert forall|i: int| 0 <= i < node.children@.len() implies node_wf(
            #[trigger] node.children@[i],
        ) by {
            lemma_mask_filter_sub(orig, d, i);
            let j = choose|j: int| 0 <= j < orig.len() && mask_filter(orig, d)[i] == #[trigger] orig[j];
            assert(node_wf(orig[j]));
        }
        assert(node_view(*node) == resources_filtered(node_view(*old(node))));
    }
}

/// The position of the first child named `name`, if any.
fn find_index(node: &XmlNode, name: &str) -> (r: Option<usize>)
    requires
        node_wf(*node),
    ensures
        match r {
            Some(i) => {
                &&& (i as int) < node.children@.len()
                &&& node_view(node.children@[i as int]).name == name@
                &&& forall|j: int|
                    0 <= j < i as int ==> node_view(#[trigger] node.children@[j]).name != name@
            },
            None => forall|j: int|
                0 <= j < node.children@.len() ==> node_view(
                    #[trigger] node.children@[j],
                ).name != name@,
        },
{
    let n = node.children.len();
    let mut i: usize = 0;
    while i < n
        invariant
            i <= n,
            n == node.children@.len(),
            node_wf(*node),
            forall|j: int| 0 <= j < i ==> node_view(#[trigger] node.children@[j]).name != name@,
        decreases n - i,
    {
        proof {
            assert(node_wf(node.children@[i as int]));
        }
        let nm = node.children[i].name();
        if str_eq(nm.as_str(), name) {
            return Some(i);
        }
        i = i + 1;
    }
    None
}

/// Rewrite a `file` node: filter its first `resources` child, leave the rest.
#[verifier::loop_isolation(false)]
pub fn rewrite_file(node: &mut XmlNode)
    requires
        node_wf(*old(node)),
    ensures
        node_wf(*final(node)),
        node_view(*final(node)) == file_rewritten(node_view(*old(node))),
{
    let ghost oldv = node_view(*old(node));
    proof {
        lemma_nodes_view_index(old(node).children@);
    }
    match find_index(node, "resources") {
        None => {
            proof {
                assert forall|j: int| 0 <= j < oldv.children.len() implies (
                #[trigger] oldv.children[j]).name != "resources"@ by {
                    assert(node_view(old(node).children@[j]).name != "resources"@);
                }
                lemma_first_named_none(oldv.children, "resources"@);
            }
        },
        Some(i) => {
            proof {
                assert forall|j: int| 0 <= j < i as int implies (#[trigger] oldv.children[j]).name
                    != "resources"@ by {
                    assert(node_view(old(node).children@[j]).name != "resources"@);
                }
                lemma_first_named_is(oldv.children, "resources"@, i as int);
            }
            let mut r = node.children.remove(i);
            filter_resources(&mut r);
            node.children.insert(i, r);
            proof {
                assert(node.children@ =~= old(node).children@.update(
                    i as int,
                    node.children@[i as int],
                ));
                lemma_nodes_view_index(node.children@);
                assert(nodes_view(node.children@).len() == oldv.children.len());
                assert forall|j: int| 0 <= j < node.children@.len() implies nodes_view(
                    node.children@,
                )[j] == oldv.children.update(
                    i as int,
                    resources_filtered(oldv.children[i as int]),
                )[j] by {
                    assert(nodes_view(node.children@)[j] == node_view(node.children@[j]));
                    if j != i as int {
                        assert(node.children@[j] == old(node).children@[j]);
                    }
                }
                assert(nodes_view(node.children@) =~~= oldv.children.update(
                    i as int,
                    resources_filtered(oldv.children[i as int]),
                ));
                assert(node_view(*node) =~~= file_rewritten(oldv));
                assert forall|j: int| 0 <= j < node.children@.len() implies node_wf(
                    #[trigger] node.children@[j],
                ) by {
                    if j != i as int {
                        assert(node.children@[j] == old(node).children@[j]);
                    }
                }
            }
        },
    }
}

/// Rewrite the document root: inside its first `files` child, rewrite every
/// `file` child; leave everything else.
#[verifier::loop_isolation(false)]
pub fn rewrite_metalink(node: &mut XmlNode)
    requires
        node_wf(*old(node)),
    ensures
        node_wf(*final(node)),
        node_view(*final(node)) == metalink_rewritten(node_view(*old(node))),
{
    let ghost oldv = node_view(*old(node));
    proof {
        lemma_nodes_view_index(old(node).children@);
    }
    match find_index(node, "files") {
        None => {
            proof {
                assert forall|j: int| 0 <= j < oldv.children.len() implies (
                #[trigger] oldv.children[j]).name != "files"@ by {
                    assert(node_view(old(node).children@[j]).name != "files"@);
                }
                lemma_first_named_none(oldv.children, "files"@);
            }
        },
        Some(fi) => {
            proof {
                assert forall|j: int| 0 <= j < fi as int implies (#[trigger] oldv.children[j]).name
                    != "files"@ by {
                    assert(node_view(old(node).children@[j]).name != "files"@);
                }
                lemma_first_named_is(oldv.children, "files"@, fi as int);
            }
            let mut files = node.children.remove(fi);
            proof {
                assert(files == old(node).children@[fi as int]);
                assert(node_wf(files));
            }
            let ghost filesv = node_view(files);
            let ghost spec_map = |c: XmlNodeView|
                if c.name == "file"@ {
                    file_rewritten(c)
                } else {
                    c
                };
            proof {
                lemma_nodes_view_index(files.children@);
            }
            let m = files.children.len();
            let mut k: usize = 0;
            while k < m
                invariant
                    k <= m,
                    m == files.children@.len(),
                    files.start_element == old(node).children@[fi as int].start_element,
                    files.characters == old(node).children@[fi as int].characters,
                    forall|j: int| 0 <= j < m ==> node_wf(#[trigger] files.children@[j]),
                    forall|j: int|
                        k <= j < m ==> node_view(#[trigger] files.children@[j])
                            == filesv.children[j],
                    forall|j: int|
                        0 <= j < k ==> node_view(#[trigger] files.children@[j]) == spec_map(
                            filesv.children[j],
                        ),
                decreases m - k,
            {
                let nm = files.children[k].name();
                if str_eq(nm.as_str(), "file") {
                    let ghost files_before = files.children@;
                    let mut c = files.children.remove(k);
                    rewrite_file(&mut c);
                    files.children.insert(k, c);
                    proof {
                        assert(files.children@ =~= files_before.update(
                            k as int,
                            files.children@[k as int],
                        ));
                    }
                }
                k = k + 1;
            }
            node.children.insert(fi, files);
            proof {
                lemma_nodes_view_index(files.children@);
                assert(nodes_view(files.children@).len() == filesv.children.map_values(
                    spec_map,
                ).len());
                assert forall|j: int| 0 <= j < m implies nodes_view(files.children@)[j]
                    == filesv.children.map_values(spec_map)[j] by {
                    assert(nodes_view(files.children@)[j] == node_view(files.children@[j]));
                    assert(filesv.children.map_values(spec_map)[j] == spec_map(
                        filesv.children[j],
                    ));
                }
                assert(nodes_view(files.children@) =~~= filesv.children.map_values(spec_map));
                assert(node_view(files) =~~= files_rewritten(filesv));
                assert(node.children@ =~= old(node).children@.update(fi as int, files));
                lemma_nodes_view_index(node.children@);
                assert(nodes_view(node.children@).len() == oldv.children.len());
                assert forall|j: int| 0 <= j < node.children@.len() implies nodes_view(
                    node.children@,
                )[j] == oldv.children.update(
                    fi as int,
                    files_rewritten(oldv.children[fi as int]),
                )[j] by {
                    assert(nodes_view(node.children@)[j] == node_view(node.children@[j]));
                    if j != fi as int {
                        assert(node.children@[j] == old(node).children@[j]);
                    } else {
                        assert(node.children@[j] == files);
                    }
                }
                assert(nodes_view(node.children@) =~~= oldv.children.update(
                    fi as int,
                    files_rewritten(oldv.children[fi as int]),
                ));
                assert(node_view(*node) =~~= metalink_rewritten(oldv));
                assert(node_wf(files));
                assert forall|j: int| 0 <= j < node.children@.len() implies node_wf(
                    #[trigger] node.children@[j],
                ) by {
                    if j != fi as int {
                        assert(node.children@[j] == old(node).children@[j]);
                    }
                }
            }
        },
    }
}

/// A metalink document whose mirror lists have been filtered.
#[derive(Debug)]
pub struct Metalink {
    pub tree: XmlTree,
}

impl Metalink {
    /// Parse a metalink document and filter its mirror lists: within the
    /// `files` element, within each `file`, within its `resources`, only the
    /// HTTP mirror entries stay.  The call fails exactly when the parse does
    /// (the caller then forwards the original document unrewritten); on
    /// success the held tree is the rewrite of the tree the bytes' document
    /// run stands for.
    pub fn try_from_bytes(input: &[u8]) -> (r: Result<Metalink, XmlError>)
        ensures
            match r {
                Ok(m) => {
                    &&& m.tree.wf()
                    &&& (crate::xml_tree::doc_events(input@) matches Some(run) && {
                        &&& run.len() >= 1
                        &&& run[0] == crate::xml_tree::EventView::StartDocument
                        &&& exists|v: XmlNodeView|
                            {
                                &&& run.drop_first() == #[trigger] crate::xml_tree::view_events(v)
                                &&& node_view(m.tree.root_node) == metalink_rewritten(v)
                            }
                    })
                },
                Err(_) => !(crate::xml_tree::doc_events(input@) matches Some(run)
                    && crate::xml_tree::run_is_document(run)),
            },
    {
        let tree = match XmlTree::try_from_bytes(input) {
            Ok(t) => t,
            Err(e) => {
                return Err(e);
            },
        };
        let XmlTree { start_document, mut root_node } = tree;
        let ghost parsed = node_view(root_node);
        rewrite_metalink(&mut root_node);
        proof {
            // the parsed root's view witnesses the run's tree
            match crate::xml_tree::doc_events(input@) {
                Some(run) => {
                    assert(run.drop_first() == crate::xml_tree::view_events(parsed));
                },
                None => {},
            }
        }
        Ok(Metalink { tree: XmlTree { start_document, root_node } })
    }

    /// The rewritten document, encoded back to XML text.
    pub fn to_xml_string(&self) -> (r: String)
        requires
            self.tree.wf(),
        ensures
            r@ == crate::xml_tree::doc_header() + crate::xml_tree::view_xml_text(
                node_view(self.tree.root_node),
            ),
    {
        self.tree.to_xml_string()
    }
}

} // verus!
