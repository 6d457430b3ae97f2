//! The document model: element and text nodes, owned as a tree.

use vstd::prelude::*;
use crate::strs::append_string;
use crate::html::{parse_forest, parse_fragment, HTMLParseError};

verus! {

/// The mathematical view of one node: what kind it is and its children.
pub struct Tree {
    pub kind: NodeKind,
    pub children: Seq<Tree>,
}

/// The view of a node's own payload.
pub enum NodeKind {
    Element { tag: Seq<char>, attrs: Seq<(Seq<char>, Seq<char>)> },
    Text { data: Seq<char> },
}

/// Attributes of an element, in the order in which they were first set; no
/// name occurs twice.
#[derive(Debug, PartialEq, Eq)]
pub struct AttrMap {
    pub entries: Vec<(String, String)>,
}

/// An element's name and attributes.
#[derive(Debug, PartialEq, Eq)]
pub struct Element {
    pub tag_name: String,
    pub attributes: AttrMap,
}

/// A text node's payload, kept verbatim.
#[derive(Debug, PartialEq, Eq)]
pub struct Text {
    pub data: String,
}

/// What a node is: an element or a run of text.
#[derive(Debug, PartialEq, Eq)]
pub enum NodeType {
    Element(Element),
    Text(Text),
}

/// A node of the document tree; it owns its children.
#[derive(Debug, PartialEq, Eq)]
pub struct Node {
    pub node_type: NodeType,
    pub children: Vec<Box<Node>>,
}

pub open spec fn pair_view(p: (String, String)) -> (Seq<char>, Seq<char>) {
    (p.0@, p.1@)
}

/// The first value stored under `key`, if any.
pub open spec fn attr_lookup(attrs: Seq<(Seq<char>, Seq<char>)>, key: Seq<char>) -> Option<Seq<char>>
    decreases attrs.len(),
{
    if attrs.len() == 0 {
        None
    } else if attrs[0].0 == key {
        Some(attrs[0].1)
    } else {
        attr_lookup(attrs.drop_first(), key)
    }
}

/// `attrs` with `key` set to `value`: replaced in place where the name is
/// present, appended otherwise.
pub open spec fn attr_insert(
    attrs: Seq<(Seq<char>, Seq<char>)>,
    key: Seq<char>,
    value: Seq<char>,
) -> Seq<(Seq<char>, Seq<char>)> {
    if exists|i: int| 0 <= i < attrs.len() && (#[trigger] attrs[i]).0 == key {
        let i = choose|i: int| 0 <= i < attrs.len() && (#[trigger] attrs[i]).0 == key;
        attrs.update(i, (key, value))
    } else {
        attrs.push((key, value))
    }
}

pub open spec fn keys_unique(attrs: Seq<(Seq<char>, Seq<char>)>) -> bool {
    forall|i: int, j: int|
        0 <= i < attrs.len() && 0 <= j < attrs.len() && i != j ==> (#[trigger] attrs[i]).0
            != (#[trigger] attrs[j]).0
}

impl AttrMap {
    pub open spec fn view(&self) -> Seq<(Seq<char>, Seq<char>)> {
        self.entries@.map_values(|p: (String, String)| pair_view(p))
    }

    pub open spec fn wf(&self) -> bool {
        keys_unique(self@)
    }

    pub fn new() -> (r: AttrMap)
        ensures
            r@ == Seq::<(Seq<char>, Seq<char>)>::empty(),
            r.wf(),
    {
        AttrMap { entries: Vec::new() }
    }

    /// Sets `key` to `value`, keeping the position of an existing entry.
    pub fn insert(&mut self, key: String, value: String)
        requires
            old(self).wf(),
        ensures
            final(self)@ == attr_insert(old(self)@, key@, value@),
            final(self).wf(),
    {
        let n = self.entries.len();
        let mut i: usize = 0;
        while i < n
            invariant
                n == self.entries@.len(),
                i <= n,
                *self == *old(self),
                self.wf(),
                forall|j: int| 0 <= j < i ==> (#[trigger] self@[j]).0 != key@,
            decreases n - i,
        {
            if crate::strs::str_eq(self.entries[i].0.as_str(), key.as_str()) {
                proof {
                    assert(self@[i as int] == pair_view(self.entries@[i as int]));
                    assert(exists|k: int| 0 <= k < self@.len() && (#[trigger] self@[k]).0 == key@);
                    assert(self@[i as int].0 == key@);
                    let k = choose|k: int| 0 <= k < self@.len() && (#[trigger] self@[k]).0 == key@;
                    assert(k == i) by {
                        if k != i {
                            assert(self@[k].0 != self@[i as int].0);
                        }
                    }
                }
                let ghost before = self@;
                self.entries.set(i, (key, value));
                assert(self@ =~= before.update(i as int, (key@, value@)));
                assert(forall|j: int| 0 <= j < self@.len() ==> (#[trigger] self@[j]).0 == before[j].0);
                return;
            }
            i = i + 1;
        }
        let ghost before = self@;
        self.entries.push((key, value));
        assert(self@ =~= before.push((key@, value@)));
        assert(forall|j: int| 0 <= j < before.len() ==> (#[trigger] self@[j]).0 == before[j].0);
    }

    /// The value stored under `key`.
    pub fn get(&self, key: &str) -> (r: Option<&String>)
        ensures
            r matches Some(v) ==> attr_lookup(self@, key@) == Some(v@),
            r is None ==> attr_lookup(self@, key@) is None,
    {
        let n = self.entries.len();
        let mut i: usize = 0;
        assert(self@.subrange(0, n as int) =~= self@);
        while i < n
            invariant
                n == self.entries@.len(),
                i <= n,
                attr_lookup(self@, key@) == attr_lookup(self@.subrange(i as int, n as int), key@),
            decreases n - i,
        {
            assert(self@.subrange(i as int, n as int).drop_first() =~= self@.subrange(
                i as int + 1,
                n as int,
            ));
            if crate::strs::str_eq(self.entries[i].0.as_str(), key) {
                return Some(&self.entries[i].1);
            }
            i = i + 1;
        }
        None
    }
}

pub proof fn lemma_views_push(cs: Seq<Box<Node>>, c: Box<Node>)
    ensures
        views(cs.push(c)) == views(cs).push(c.view()),
{
    assert(cs.push(c).drop_last() =~= cs);
}

pub proof fn lemma_views_len(cs: Seq<Box<Node>>)
    ensures
        views(cs).len() == cs.len(),
    decreases cs.len(),
{
    if cs.len() > 0 {
        lemma_views_len(cs.drop_last());
    }
}

pub proof fn lemma_views_index(cs: Seq<Box<Node>>, i: int)
    requires
        0 <= i < cs.len(),
    ensures
        views(cs).len() == cs.len(),
        views(cs)[i] == cs[i].view(),
    decreases cs.len(),
{
    lemma_views_len(cs);
    if i < cs.len() - 1 {
        lemma_views_index(cs.drop_last(), i);
    }
}

impl NodeType {
    pub open spec fn view(&self) -> NodeKind {
        match self {
            NodeType::Element(e) => NodeKind::Element { tag: e.tag_name@, attrs: e.attributes@ },
            NodeType::Text(t) => NodeKind::Text { data: t.data@ },
        }
    }
}

impl Node {
    pub open spec fn view(&self) -> Tree
        decreases self,
    {
        Tree { kind: self.node_type@, children: views(self.children@) }
    }
}

/// The views of a sequence of nodes.
pub open spec fn views(cs: Seq<Box<Node>>) -> Seq<Tree>
    decreases cs,
{
    if cs.len() == 0 {
        Seq::empty()
    } else {
        views(cs.drop_last()).push(cs.last().view())
    }
}

/// The text under `t`: its text children's payloads and its element
/// children's text, in document order.
pub open spec fn inner_text_of(t: Tree) -> Seq<char>
    decreases t,
{
    children_text(t.children)
}

pub open spec fn children_text(cs: Seq<Tree>) -> Seq<char>
    decreases cs,
{
    if cs.len() == 0 {
        Seq::empty()
    } else {
        children_text(cs.drop_last()) + match cs.last().kind {
            NodeKind::Text { data } => data,
            NodeKind::Element { .. } => inner_text_of(cs.last()),
        }
    }
}

/// `name="value"`.
pub open spec fn attr_markup(p: (Seq<char>, Seq<char>)) -> Seq<char> {
    p.0 + seq!['=', '"'] + p.1 + seq!['"']
}

/// The attributes written out, separated by single spaces.
pub open spec fn attrs_markup(ps: Seq<(Seq<char>, Seq<char>)>) -> Seq<char>
    decreases ps.len(),
{
    if ps.len() == 0 {
        Seq::empty()
    } else if ps.len() == 1 {
        attr_markup(ps[0])
    } else {
        attrs_markup(ps.drop_last()) + seq![' '] + attr_markup(ps.last())
    }
}

/// The markup of one node: an element as `<tag attrs>children</tag>`
/// (no space before `>` without attributes), a text node as its payload.
pub open spec fn markup_of(t: Tree) -> Seq<char>
    decreases t,
{
    match t.kind {
        NodeKind::Element { tag, attrs } => seq!['<'] + tag + (if attrs.len() == 0 {
            Seq::empty()
        } else {
            seq![' '] + attrs_markup(attrs)
        }) + seq!['>'] + children_markup(t.children) + seq!['<', '/'] + tag + seq!['>'],
        NodeKind::Text { data } => data,
    }
}

pub open spec fn children_markup(cs: Seq<Tree>) -> Seq<char>
    decreases cs,
{
    if cs.len() == 0 {
        Seq::empty()
    } else {
        children_markup(cs.drop_last()) + markup_of(cs.last())
    }
}

impl Text {
    /// A text node holding `text`.
    pub fn new(text: String) -> (r: Box<Node>)
        ensures
            r.view() == (Tree { kind: NodeKind::Text { data: text@ }, children: Seq::empty() }),
    {
        let r = Box::new(Node { node_type: NodeType::Text(Text { data: text }), children: Vec::new() });
        assert(views(r.children@) =~= Seq::<Tree>::empty());
        r
    }
}

impl Element {
    /// An element node with the given name, attributes and children.
    pub fn new(tag_name: String, attributes: AttrMap, children: Vec<Box<Node>>) -> (r: Box<Node>)
        ensures
            r.view() == (Tree {
                kind: NodeKind::Element { tag: tag_name@, attrs: attributes@ },
                children: views(children@),
            }),
    {
        Box::new(Node { node_type: NodeType::Element(Element { tag_name, attributes }), children })
    }

    /// The attribute pairs, in order.
    pub fn attributes(&self) -> (r: Vec<(String, String)>)
        ensures
            r@.map_values(|p: (String, String)| pair_view(p)) == self.attributes@,
    {
        let mut r: Vec<(String, String)> = Vec::new();
        let n = self.attributes.entries.len();
        let mut i: usize = 0;
        while i < n
            invariant
                n == self.attributes.entries@.len(),
                i <= n,
                r@.len() == i,
                r@.map_values(|p: (String, String)| pair_view(p)) == self.attributes@.subrange(0, i as int),
            decreases n - i,
        {
            let k = self.attributes.entries[i].0.clone();
            let v = self.attributes.entries[i].1.clone();
            let ghost before = r@;
            r.push((k, v));
            assert(pair_view(r@[i as int]) == self.attributes@[i as int]);
            assert(r@.map_values(|p: (String, String)| pair_view(p)) =~= self.attributes@.subrange(0, i as int + 1));
            i = i + 1;
        }
        assert(self.attributes@.subrange(0, n as int) =~= self.attributes@);
        r
    }

    /// The value of the `id` attribute.
    pub fn id(&self) -> (r: Option<&String>)
        ensures
            r matches Some(v) ==> attr_lookup(self.attributes@, seq!['i', 'd']) == Some(v@),
            r is None ==> attr_lookup(self.attributes@, seq!['i', 'd']) is None,
    {
        proof {
            reveal_strlit("id");
            assert("id"@ =~= seq!['i', 'd']);
        }
        self.attributes.get("id")
    }
}

impl Node {
    /// The text under this node, concatenated in document order.
    pub fn inner_text(&self) -> (r: String)
        ensures
            r@ == inner_text_of(self.view()),
        decreases self,
    {
        let mut out = String::new();
        let n = self.children.len();
        let mut i: usize = 0;
        proof {
            lemma_views_len(self.children@);
        }
        while i < n
            invariant
                n == self.children@.len(),
                i <= n,
                views(self.children@).len() == n,
                out@ == children_text(views(self.children@).subrange(0, i as int)),
            decreases n - i,
        {
            let child = &self.children[i];
            proof {
                lemma_views_index(self.children@, i as int);
                let vs = views(self.children@);
                assert(vs.subrange(0, i as int + 1).drop_last() =~= vs.subrange(0, i as int));
            }
            match &child.node_type {
                NodeType::Text(t) => {
                    let d = t.data.clone();
                    append_string(&mut out, &d);
                },
                NodeType::Element(_) => {
                    let d = child.inner_text();
                    append_string(&mut out, &d);
                },
            }
            i = i + 1;
        }
        assert(views(self.children@).subrange(0, n as int) =~= views(self.children@));
        out
    }

    /// This node written out as markup.
    pub fn to_string(&self) -> (r: String)
        ensures
            r@ == markup_of(self.view()),
        decreases self,
    {
        match &self.node_type {
            NodeType::Text(t) => t.data.clone(),
            NodeType::Element(e) => {
                let mut out = String::new();
                crate::strs::push_char(&mut out, '<');
                append_string(&mut out, &e.tag_name);
                let attrs = attrs_to_string(&e.attributes);
                append_string(&mut out, &attrs);
                crate::strs::push_char(&mut out, '>');
                let inner = self.inner_html();
                append_string(&mut out, &inner);
                crate::strs::push_char(&mut out, '<');
                crate::strs::push_char(&mut out, '/');
                append_string(&mut out, &e.tag_name);
                crate::strs::push_char(&mut out, '>');
                proof {
                    let a = e.attributes@;
                    let am = if a.len() == 0 { Seq::empty() } else { seq![' '] + attrs_markup(a) };
                    assert(out@ =~= seq!['<'] + e.tag_name@ + am + seq!['>'] + children_markup(views(self.children@))
                        + seq!['<', '/'] + e.tag_name@ + seq!['>']);
                }
                out
            },
        }
    }

    /// The children written out as markup, one after another.
    pub fn inner_html(&self) -> (r: String)
        ensures
            r@ == children_markup(self.view().children),
        decreases self, 0int,
    {
        let mut out = String::new();
        let n = self.children.len();
        let mut i: usize = 0;
        proof {
            lemma_views_len(self.children@);
        }
        while i < n
            invariant
                n == self.children@.len(),
                i <= n,
                views(self.children@).len() == n,
                out@ == children_markup(views(self.children@).subrange(0, i as int)),
            decreases n - i,
        {
            proof {
                lemma_views_index(self.children@, i as int);
                let vs = views(self.children@);
                assert(vs.subrange(0, i as int + 1).drop_last() =~= vs.subrange(0, i as int));
            }
            let d = self.children[i].to_string();
            append_string(&mut out, &d);
            i = i + 1;
        }
        assert(views(self.children@).subrange(0, n as int) =~= views(self.children@));
        out
    }

    /// Replaces the children by the nodes that `html` spells; on a grammar
    /// failure the node is left as it was.
    pub fn set_inner_html(&mut self, html: String) -> (r: Result<(), HTMLParseError>)
        ensures
            r is Ok <==> parse_forest(html@) is Some,
            r is Ok ==> parse_forest(html@) == Some(views(final(self).children@))
                && final(self).node_type == old(self).node_type,
            r is Err ==> *final(self) == *old(self),
    {
        match parse_fragment(html.as_str()) {
            Ok(nodes) => {
                self.children = nodes;
                Ok(())
            },
            Err(e) => Err(e),
        }
    }
}

/// The attributes part of an open tag: empty, or a space and the pairs.
fn attrs_to_string(m: &AttrMap) -> (r: String)
    ensures
        r@ == (if m@.len() == 0 {
            Seq::empty()
        } else {
            seq![' '] + attrs_markup(m@)
        }),
{
    let mut out = String::new();
    let n = m.entries.len();
    let mut i: usize = 0;
    while i < n
        invariant
            n == m.entries@.len(),
            n == m@.len(),
            i <= n,
            out@ == (if i == 0 {
                Seq::empty()
            } else {
                seq![' '] + attrs_markup(m@.subrange(0, i as int))
            }),
        decreases n - i,
    {
        let ghost a = m@.subrange(0, i as int + 1);
        assert(a.drop_last() =~= m@.subrange(0, i as int));
        assert(a.last() == pair_view(m.entries@[i as int]));
        crate::strs::push_char(&mut out, ' ');
        append_string(&mut out, &m.entries[i].0);
        crate::strs::push_char(&mut out, '=');
        crate::strs::push_char(&mut out, '"');
        append_string(&mut out, &m.entries[i].1);
        crate::strs::push_char(&mut out, '"');
        proof {
            if i == 0 {
                assert(a.len() == 1);
                assert(out@ =~= seq![' '] + attr_markup(a[0]));
            } else {
                assert(out@ =~= seq![' '] + attrs_markup(a.drop_last()) + seq![' '] + attr_markup(a.last()));
            }
        }
        i = i + 1;
    }
    assert(m@.subrange(0, n as int) =~= m@);
    out
}

} // verus!
