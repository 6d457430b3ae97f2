//! A parsed document: its address and its root node.

use vstd::prelude::*;
use crate::dom::{
    attr_lookup, inner_text_of, lemma_views_index, lemma_views_len, views, Node, NodeKind, NodeType, Tree,
};

verus! {

/// A parsed page: where it came from and its root node.
#[derive(Debug, PartialEq, Eq)]
pub struct Document {
    pub url: String,
    pub document_uri: String,
    pub document_element: Box<Node>,
}

/// The texts of the elements named `tag` in and under `t`, in document
/// order; a matched element's descendants are searched too.
pub open spec fn tag_inners(t: Tree, tag: Seq<char>) -> Seq<Seq<char>>
    decreases t,
{
    let own: Seq<Seq<char>> = match t.kind {
        NodeKind::Element { tag: name, .. } => if name == tag {
            seq![inner_text_of(t)]
        } else {
            Seq::empty()
        },
        NodeKind::Text { .. } => Seq::empty(),
    };
    own + children_tag_inners(t.children, tag)
}

pub open spec fn children_tag_inners(cs: Seq<Tree>, tag: Seq<char>) -> Seq<Seq<char>>
    decreases cs,
{
    if cs.len() == 0 {
        Seq::empty()
    } else {
        children_tag_inners(cs.drop_last(), tag) + tag_inners(cs.last(), tag)
    }
}

pub open spec fn strings_view(v: Seq<String>) -> Seq<Seq<char>> {
    v.map_values(|s: String| s@)
}

proof fn lemma_strings_view_append(a: Seq<String>, b: Seq<String>)
    ensures
        strings_view(a + b) == strings_view(a) + strings_view(b),
{
    assert(strings_view(a + b) =~= strings_view(a) + strings_view(b));
}

pub open spec fn script_tag() -> Seq<char> {
    seq!['s', 'c', 'r', 'i', 'p', 't']
}

pub open spec fn style_tag() -> Seq<char> {
    seq!['s', 't', 'y', 'l', 'e']
}

/// The elements in and under `t` in document order, each before its
/// descendants.
pub open spec fn elements_of(t: Tree) -> Seq<Tree>
    decreases t,
{
    let own: Seq<Tree> = match t.kind {
        NodeKind::Element { .. } => seq![t],
        NodeKind::Text { .. } => Seq::empty(),
    };
    own + children_elements(t.children)
}

pub open spec fn children_elements(cs: Seq<Tree>) -> Seq<Tree>
    decreases cs,
{
    if cs.len() == 0 {
        Seq::empty()
    } else {
        children_elements(cs.drop_last()) + elements_of(cs.last())
    }
}

pub open spec fn id_name() -> Seq<char> {
    seq!['i', 'd']
}

pub open spec fn has_id(t: Tree, id: Seq<char>) -> bool {
    t.kind is Element && attr_lookup(t.kind->attrs, id_name()) == Some(id)
}

/// Whether some element of `ts` has the given `id`.
pub open spec fn some_has_id(ts: Seq<Tree>, id: Seq<char>) -> bool {
    exists|k: int| 0 <= k < ts.len() && has_id(#[trigger] ts[k], id)
}

pub open spec fn refs_view(v: Seq<&Box<Node>>) -> Seq<Tree> {
    v.map_values(|n: &Box<Node>| n.view())
}

proof fn lemma_refs_view_append(a: Seq<&Box<Node>>, b: Seq<&Box<Node>>)
    ensures
        refs_view(a + b) == refs_view(a) + refs_view(b),
{
    assert(refs_view(a + b) =~= refs_view(a) + refs_view(b));
}

fn elements_under<'a>(node: &'a Box<Node>) -> (r: Vec<&'a Box<Node>>)
    ensures
        refs_view(r@) == elements_of(node.view()),
    decreases node,
{
    let mut out: Vec<&'a Box<Node>> = Vec::new();
    if let NodeType::Element(_) = &node.node_type {
        out.push(node);
    }
    assert(refs_view(out@) =~= match node.view().kind {
        NodeKind::Element { .. } => seq![node.view()],
        NodeKind::Text { .. } => Seq::<Tree>::empty(),
    });
    let ghost own = refs_view(out@);
    let n = node.children.len();
    let mut i: usize = 0;
    proof {
        lemma_views_len(node.children@);
    }
    assert(views(node.children@).subrange(0, 0) =~= Seq::<Tree>::empty());
    while i < n
        invariant
            n == node.children@.len(),
            i <= n,
            views(node.children@).len() == n,
            refs_view(out@) == own + children_elements(views(node.children@).subrange(0, i as int)),
        decreases n - i,
    {
        proof {
            lemma_views_index(node.children@, i as int);
            let vs = views(node.children@);
            assert(vs.subrange(0, i as int + 1).drop_last() =~= vs.subrange(0, i as int));
        }
        let mut sub = elements_under(&node.children[i]);
        let ghost before = out@;
        let ghost added = sub@;
        out.append(&mut sub);
        proof {
            lemma_refs_view_append(before, added);
        }
        i = i + 1;
    }
    assert(views(node.children@).subrange(0, n as int) =~= views(node.children@));
    out
}

impl Document {
    /// Every element of the document, in document order.
    pub fn all_elements(&self) -> (r: Vec<&Box<Node>>)
        ensures
            refs_view(r@) == elements_of(self.document_element.view()),
    {
        elements_under(&self.document_element)
    }

    /// The first element, in document order, whose `id` attribute is `id`.
    pub fn get_element_by_id(&self, id: &str) -> (r: Option<&Box<Node>>)
        ensures
            r matches Some(n) ==> exists|k: int|
                0 <= k < elements_of(self.document_element.view()).len() && #[trigger] elements_of(
                    self.document_element.view(),
                )[k] == n.view() && has_id(n.view(), id@) && !some_has_id(
                    elements_of(self.document_element.view()).subrange(0, k),
                    id@,
                ),
            r is None <==> !some_has_id(elements_of(self.document_element.view()), id@),
    {
        let all = self.all_elements();
        let ghost es = elements_of(self.document_element.view());
        proof {
            reveal_strlit("id");
            assert("id"@ =~= id_name());
        }
        let n = all.len();
        let mut i: usize = 0;
        while i < n
            invariant
                n == all@.len(),
                refs_view(all@) == es,
                es == elements_of(self.document_element.view()),
                es.len() == n,
                i <= n,
                "id"@ == id_name(),
                !some_has_id(es.subrange(0, i as int), id@),
            decreases n - i,
        {
            let e = all[i];
            assert(es[i as int] == e.view());
            assert(e.view().kind == e.node_type@);
            if let NodeType::Element(el) = &e.node_type {
                match el.attributes.get("id") {
                    Some(v) => {
                        if crate::strs::str_eq(v.as_str(), id) {
                            assert(has_id(es[i as int], id@));
                            assert(some_has_id(es, id@));
                            assert(exists|k: int|
                                0 <= k < es.len() && #[trigger] es[k] == e.view() && has_id(e.view(), id@)
                                    && !some_has_id(es.subrange(0, k), id@));
                            return Some(e);
                        }
                    },
                    None => {},
                }
            }
            assert(!has_id(es[i as int], id@));
            assert(!some_has_id(es.subrange(0, i as int + 1), id@)) by {
                let sub = es.subrange(0, i as int + 1);
                assert forall|k: int| 0 <= k < sub.len() implies !has_id(#[trigger] sub[k], id@) by {
                    if k < i {
                        assert(sub[k] == es.subrange(0, i as int)[k]);
                    }
                }
            }
            i = i + 1;
        }
        assert(es.subrange(0, n as int) =~= es);
        None
    }

    pub fn new(url: String, document_uri: String, document_element: Box<Node>) -> (r: Document)
        ensures
            r.url == url,
            r.document_uri == document_uri,
            r.document_element == document_element,
    {
        Document { url, document_uri, document_element }
    }

    /// The text of every element named `tag_name`, in document order.
    pub fn collect_tag_inners(&self, tag_name: &str) -> (r: Vec<String>)
        ensures
            strings_view(r@) == tag_inners(self.document_element.view(), tag_name@),
    {
        Self::intl(&self.document_element, tag_name)
    }

    fn intl(node: &Box<Node>, tag_name: &str) -> (r: Vec<String>)
        ensures
            strings_view(r@) == tag_inners(node.view(), tag_name@),
        decreases node,
    {
        let mut out: Vec<String> = Vec::new();
        if let NodeType::Element(element) = &node.node_type {
            if crate::strs::str_eq(element.tag_name.as_str(), tag_name) {
                out.push(node.inner_text());
            }
        }
        assert(strings_view(out@) =~= match node.view().kind {
            NodeKind::Element { tag: name, .. } => if name == tag_name@ {
                seq![inner_text_of(node.view())]
            } else {
                Seq::empty()
            },
            NodeKind::Text { .. } => Seq::empty(),
        });
        let ghost own = strings_view(out@);
        let n = node.children.len();
        let mut i: usize = 0;
        proof {
            lemma_views_len(node.children@);
        }
        assert(views(node.children@).subrange(0, 0) =~= Seq::<Tree>::empty());
        while i < n
            invariant
                n == node.children@.len(),
                i <= n,
                views(node.children@).len() == n,
                strings_view(out@) == own + children_tag_inners(
                    views(node.children@).subrange(0, i as int),
                    tag_name@,
                ),
            decreases n - i,
        {
            proof {
                lemma_views_index(node.children@, i as int);
                let vs = views(node.children@);
                assert(vs.subrange(0, i as int + 1).drop_last() =~= vs.subrange(0, i as int));
            }
            let mut sub = Self::intl(&node.children[i], tag_name);
            let ghost before = out@;
            let ghost added = sub@;
            out.append(&mut sub);
            proof {
                lemma_strings_view_append(before, added);
            }
            i = i + 1;
        }
        assert(views(node.children@).subrange(0, n as int) =~= views(node.children@));
        out
    }

    /// The texts of the `script` elements.
    pub fn get_script_inners(&self) -> (r: Vec<String>)
        ensures
            strings_view(r@) == tag_inners(self.document_element.view(), script_tag()),
    {
        proof {
            reveal_strlit("script");
            assert("script"@ =~= script_tag());
        }
        self.collect_tag_inners("script")
    }

    /// The texts of the `style` elements.
    pub fn get_style_inners(&self) -> (r: Vec<String>)
        ensures
            strings_view(r@) == tag_inners(self.document_element.view(), style_tag()),
    {
        proof {
            reveal_strlit("style");
            assert("style"@ =~= style_tag());
        }
        self.collect_tag_inners("style")
    }
}

} // verus!
