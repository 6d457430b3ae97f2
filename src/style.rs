//! The style cascade: each node gets the declarations of the rules that
//! match it, later rules overriding earlier ones.

use vstd::prelude::*;
use crate::css::{parse, rule_matches, CSSValue, RuleModel, Stylesheet, ValueModel};
use crate::document::{strings_view, style_tag, tag_inners, Document};
use crate::dom::{lemma_views_index, lemma_views_len, views, Node, NodeKind, NodeType, Tree};
use crate::strs::str_eq;

verus! {

/// Computed properties: names with their values, no name twice.
#[derive(Debug, PartialEq, Eq)]
pub struct PropertyMap {
    pub entries: Vec<(String, CSSValue)>,
}

pub open spec fn prop_view(p: (String, CSSValue)) -> (Seq<char>, ValueModel) {
    (p.0@, p.1@)
}

/// The value stored under `name`, if any.
pub open spec fn prop_lookup(props: Seq<(Seq<char>, ValueModel)>, name: Seq<char>) -> Option<ValueModel>
    decreases props.len(),
{
    if props.len() == 0 {
        None
    } else if props.last().0 == name {
        Some(props.last().1)
    } else {
        prop_lookup(props.drop_last(), name)
    }
}

/// `props` with `name` set to `value`: replaced in place where the name is
/// present, appended otherwise.
pub open spec fn prop_insert(
    props: Seq<(Seq<char>, ValueModel)>,
    name: Seq<char>,
    value: ValueModel,
) -> Seq<(Seq<char>, ValueModel)> {
    if exists|i: int| 0 <= i < props.len() && (#[trigger] props[i]).0 == name {
        let i = choose|i: int| 0 <= i < props.len() && (#[trigger] props[i]).0 == name;
        props.update(i, (name, value))
    } else {
        props.push((name, value))
    }
}

pub open spec fn names_unique(props: Seq<(Seq<char>, ValueModel)>) -> bool {
    forall|i: int, j: int|
        0 <= i < props.len() && 0 <= j < props.len() && i != j ==> (#[trigger] props[i]).0
            != (#[trigger] props[j]).0
}

/// The properties after setting each declaration in turn.
pub open spec fn apply_declarations(
    props: Seq<(Seq<char>, ValueModel)>,
    ds: Seq<(Seq<char>, ValueModel)>,
) -> Seq<(Seq<char>, ValueModel)>
    decreases ds.len(),
{
    if ds.len() == 0 {
        props
    } else {
        prop_insert(apply_declarations(props, ds.drop_last()), ds.last().0, ds.last().1)
    }
}

/// The properties that the rules give a node: the rules in order, each
/// that matches setting its declarations in order.
pub open spec fn cascade(rules: Seq<RuleModel>, t: Tree) -> Seq<(Seq<char>, ValueModel)>
    decreases rules.len(),
{
    if rules.len() == 0 {
        Seq::empty()
    } else if rule_matches(rules.last(), t) {
        apply_declarations(cascade(rules.drop_last(), t), rules.last().declarations)
    } else {
        cascade(rules.drop_last(), t)
    }
}

impl PropertyMap {
    pub open spec fn view(&self) -> Seq<(Seq<char>, ValueModel)> {
        self.entries@.map_values(|p: (String, CSSValue)| prop_view(p))
    }

    pub open spec fn wf(&self) -> bool {
        names_unique(self@)
    }

    pub fn new() -> (r: PropertyMap)
        ensures
            r@ == Seq::<(Seq<char>, ValueModel)>::empty(),
            r.wf(),
    {
        PropertyMap { entries: Vec::new() }
    }

    /// Sets `name` to `value`, keeping the position of an existing entry.
    pub fn insert(&mut self, name: String, value: CSSValue)
        requires
            old(self).wf(),
        ensures
            final(self)@ == prop_insert(old(self)@, name@, value@),
            final(self).wf(),
    {
        let n = self.entries.len();
        let mut i: usize = 0;
        while i < n
            invariant
                n == self.entries@.len(),
                i <= n,
                *self == *old(self),
                self.wf(),
                forall|j: int| 0 <= j < i ==> (#[trigger] self@[j]).0 != name@,
            decreases n - i,
        {
            if str_eq(self.entries[i].0.as_str(), name.as_str()) {
                proof {
                    assert(self@[i as int] == prop_view(self.entries@[i as int]));
                    assert(exists|k: int| 0 <= k < self@.len() && (#[trigger] self@[k]).0 == name@);
                    let k = choose|k: int| 0 <= k < self@.len() && (#[trigger] self@[k]).0 == name@;
                    assert(k == i) by {
                        if k != i {
                            assert(self@[k].0 != self@[i as int].0);
                        }
                    }
                }
                let ghost before = self@;
                let ghost vv = value@;
                self.entries.set(i, (name, value));
                assert(self@ =~= before.update(i as int, (name@, vv)));
                assert(forall|j: int| 0 <= j < self@.len() ==> (#[trigger] self@[j]).0 == before[j].0);
                return;
            }
            i = i + 1;
        }
        let ghost before = self@;
        let ghost vv = value@;
        self.entries.push((name, value));
        assert(self@ =~= before.push((name@, vv)));
        assert(forall|j: int| 0 <= j < before.len() ==> (#[trigger] self@[j]).0 == before[j].0);
    }

    /// The value stored under `name`.
    pub fn get(&self, name: &str) -> (r: Option<&CSSValue>)
        ensures
            r matches Some(v) ==> prop_lookup(self@, name@) == Some(v@),
            r is None ==> prop_lookup(self@, name@) is None,
    {
        let mut i: usize = self.entries.len();
        assert(self@.subrange(0, i as int) =~= self@);
        while i > 0
            invariant
                i <= self.entries@.len(),
                prop_lookup(self@, name@) == prop_lookup(self@.subrange(0, i as int), name@),
            decreases i,
        {
            assert(self@.subrange(0, i as int).drop_last() =~= self@.subrange(0, i - 1));
            if str_eq(self.entries[i - 1].0.as_str(), name) {
                return Some(&self.entries[i - 1].1);
            }
            i = i - 1;
        }
        None
    }
}

/// How a node takes part in layout.
#[derive(Debug, PartialEq, Eq, Structural, Clone, Copy)]
pub enum Display {
    Inline,
    Block,
    /// `display: none`: the node generates no box content.
    Hidden,
}

pub open spec fn display_name() -> Seq<char> {
    seq!['d', 'i', 's', 'p', 'l', 'a', 'y']
}

/// The display mode that the properties give: `block` and `none` as named,
/// anything else, or no `display` at all, inline.
pub open spec fn display_of(props: Seq<(Seq<char>, ValueModel)>) -> Display {
    match prop_lookup(props, display_name()) {
        Some(ValueModel::Keyword(k)) => if k == seq!['b', 'l', 'o', 'c', 'k'] {
            Display::Block
        } else if k == seq!['n', 'o', 'n', 'e'] {
            Display::Hidden
        } else {
            Display::Inline
        },
        _ => Display::Inline,
    }
}

/// The view of a styled node: the node's own payload, its properties and
/// its styled children.
pub struct Styled {
    pub kind: NodeKind,
    pub props: Seq<(Seq<char>, ValueModel)>,
    pub children: Seq<Styled>,
}

/// The styled tree of a document.
#[derive(Debug)]
pub struct StyledDocument<'a> {
    pub document_element: StyledNode<'a>,
}

/// A node of the document with the properties that the cascade gave it;
/// it borrows the node, so it cannot outlive the document.
#[derive(Debug, PartialEq)]
pub struct StyledNode<'a> {
    pub node_type: &'a NodeType,
    pub properties: PropertyMap,
    pub children: Vec<StyledNode<'a>>,
}

impl<'a> StyledNode<'a> {
    pub open spec fn view(&self) -> Styled
        decreases self,
    {
        Styled {
            kind: self.node_type@,
            props: self.properties@,
            children: styled_views(self.children@),
        }
    }

    /// The display mode of this node.
    pub fn display(&self) -> (r: Display)
        ensures
            r == display_of(self.properties@),
    {
        proof {
            reveal_strlit("display");
            reveal_strlit("block");
            reveal_strlit("none");
            assert("display"@ =~= display_name());
        }
        match self.properties.get("display") {
            Some(CSSValue::Keyword(s)) => {
                if str_eq(s.as_str(), "block") {
                    assert("block"@ =~= seq!['b', 'l', 'o', 'c', 'k']);
                    Display::Block
                } else if str_eq(s.as_str(), "none") {
                    assert("none"@ =~= seq!['n', 'o', 'n', 'e']);
                    Display::Hidden
                } else {
                    assert("block"@ =~= seq!['b', 'l', 'o', 'c', 'k']);
                    assert("none"@ =~= seq!['n', 'o', 'n', 'e']);
                    Display::Inline
                }
            },
            _ => Display::Inline,
        }
    }
}

pub open spec fn styled_views<'a>(cs: Seq<StyledNode<'a>>) -> Seq<Styled>
    decreases cs,
{
    if cs.len() == 0 {
        Seq::empty()
    } else {
        styled_views(cs.drop_last()).push(cs.last().view())
    }
}

/// The styled tree that the rules give `t`.
pub open spec fn styled_of(rules: Seq<RuleModel>, t: Tree) -> Styled
    decreases t,
{
    Styled { kind: t.kind, props: cascade(rules, t), children: styled_children(rules, t.children) }
}

pub open spec fn styled_children(rules: Seq<RuleModel>, cs: Seq<Tree>) -> Seq<Styled>
    decreases cs,
{
    if cs.len() == 0 {
        Seq::empty()
    } else {
        styled_children(rules, cs.drop_last()).push(styled_of(rules, cs.last()))
    }
}

proof fn lemma_lookup_update(
    s: Seq<(Seq<char>, ValueModel)>,
    i: int,
    n: Seq<char>,
    v: ValueModel,
    x: Seq<char>,
)
    requires
        names_unique(s),
        0 <= i < s.len(),
        s[i].0 == n,
    ensures
        prop_lookup(s.update(i, (n, v)), x) == (if x == n {
            Some(v)
        } else {
            prop_lookup(s, x)
        }),
    decreases s.len(),
{
    let u = s.update(i, (n, v));
    if i == s.len() - 1 {
        assert(u.drop_last() =~= s.drop_last());
    } else {
        assert(u.drop_last() =~= s.drop_last().update(i, (n, v)));
        assert(u.last() == s.last());
        assert(s.last().0 != n);
        lemma_lookup_update(s.drop_last(), i, n, v, x);
    }
}

/// Setting a property: the name now gives the new value, every other name
/// what it gave before, and no name occurs twice.
pub proof fn lemma_lookup_insert(s: Seq<(Seq<char>, ValueModel)>, n: Seq<char>, v: ValueModel, x: Seq<char>)
    requires
        names_unique(s),
    ensures
        names_unique(prop_insert(s, n, v)),
        prop_lookup(prop_insert(s, n, v), x) == (if x == n {
            Some(v)
        } else {
            prop_lookup(s, x)
        }),
{
    if exists|i: int| 0 <= i < s.len() && (#[trigger] s[i]).0 == n {
        let i = choose|i: int| 0 <= i < s.len() && (#[trigger] s[i]).0 == n;
        lemma_lookup_update(s, i, n, v, x);
        let u = s.update(i, (n, v));
        assert(forall|j: int| 0 <= j < s.len() ==> (#[trigger] u[j]).0 == s[j].0);
    } else {
        let u = s.push((n, v));
        assert(u.drop_last() =~= s);
        assert(forall|j: int| 0 <= j < s.len() ==> (#[trigger] u[j]).0 == s[j].0);
    }
}

/// Setting declarations in turn: a name that they declare gives its last
/// declared value, any other name what it gave before.
pub proof fn lemma_lookup_apply(p: Seq<(Seq<char>, ValueModel)>, ds: Seq<(Seq<char>, ValueModel)>, x: Seq<char>)
    requires
        names_unique(p),
    ensures
        names_unique(apply_declarations(p, ds)),
        prop_lookup(apply_declarations(p, ds), x) == match prop_lookup(ds, x) {
            Some(v) => Some(v),
            None => prop_lookup(p, x),
        },
    decreases ds.len(),
{
    if ds.len() > 0 {
        lemma_lookup_apply(p, ds.drop_last(), x);
        lemma_lookup_insert(apply_declarations(p, ds.drop_last()), ds.last().0, ds.last().1, x);
    }
}

/// The value that the last matching rule declaring `x` gives it, by its
/// last declaration of `x`.
pub open spec fn last_declared(rules: Seq<RuleModel>, t: Tree, x: Seq<char>) -> Option<ValueModel>
    decreases rules.len(),
{
    if rules.len() == 0 {
        None
    } else if rule_matches(rules.last(), t) && prop_lookup(rules.last().declarations, x) is Some {
        prop_lookup(rules.last().declarations, x)
    } else {
        last_declared(rules.drop_last(), t, x)
    }
}

/// The cascade gives each property the value of the last matching rule
/// that declares it.
pub proof fn lemma_cascade_lookup(rules: Seq<RuleModel>, t: Tree, x: Seq<char>)
    ensures
        names_unique(cascade(rules, t)),
        prop_lookup(cascade(rules, t), x) == last_declared(rules, t, x),
    decreases rules.len(),
{
    if rules.len() > 0 {
        lemma_cascade_lookup(rules.drop_last(), t, x);
        if rule_matches(rules.last(), t) {
            lemma_lookup_apply(cascade(rules.drop_last(), t), rules.last().declarations, x);
        }
    }
}

/// Where two rules match a node and the later one declares `x`, the value
/// of `x` comes from that rule or from a still later matching one, never
/// from the earlier rule, whatever the selectors.
pub proof fn lemma_later_rule_overrides(rules: Seq<RuleModel>, t: Tree, i: int, j: int, x: Seq<char>)
    requires
        0 <= i < j < rules.len(),
        rule_matches(rules[i], t),
        rule_matches(rules[j], t),
        prop_lookup(rules[j].declarations, x) is Some,
    ensures
        exists|k: int|
            j <= k < rules.len() && rule_matches(rules[k], t) && prop_lookup(cascade(rules, t), x)
                == prop_lookup(#[trigger] rules[k].declarations, x),
    decreases rules.len(),
{
    lemma_cascade_lookup(rules, t, x);
    if rule_matches(rules.last(), t) && prop_lookup(rules.last().declarations, x) is Some {
        let k = rules.len() - 1;
        assert(prop_lookup(cascade(rules, t), x) == prop_lookup(rules[k].declarations, x));
    } else {
        let r = rules.drop_last();
        assert(j < rules.len() - 1);
        assert(r[i] == rules[i] && r[j] == rules[j]);
        lemma_later_rule_overrides(r, t, i, j, x);
        lemma_cascade_lookup(r, t, x);
        let k = choose|k: int|
            j <= k < r.len() && rule_matches(r[k], t) && prop_lookup(cascade(r, t), x)
                == prop_lookup(#[trigger] r[k].declarations, x);
        assert(rules[k] == r[k]);
    }
}

/// The baseline rules, ahead of the document's own: `script` and `style`
/// are not displayed, `p` and `div` are blocks.
pub const DEFAULT_STYLESHEET: &'static str = "\nscript, style {\n    display: none;\n}\np, div {\n    display: block;\n}\n";

/// The strings joined with line feeds between them.
pub open spec fn join_lines(ss: Seq<Seq<char>>) -> Seq<char>
    decreases ss.len(),
{
    if ss.len() == 0 {
        Seq::empty()
    } else if ss.len() == 1 {
        ss[0]
    } else {
        join_lines(ss.drop_last()) + seq!['\n'] + ss.last()
    }
}

/// The stylesheet text for a document: the baseline, a line feed, and the
/// texts of the document's `style` elements on lines of their own.
pub open spec fn style_text(root: Tree) -> Seq<char> {
    DEFAULT_STYLESHEET@ + seq!['\n'] + join_lines(tag_inners(root, style_tag()))
}

/// The rules that style a document; where its stylesheet text does not
/// parse, no rules at all.
pub open spec fn document_rules(root: Tree) -> Seq<RuleModel> {
    match crate::css::parse_rules(style_text(root)) {
        Some(rs) => rs,
        None => Seq::empty(),
    }
}

fn join_with_newlines(v: &Vec<String>) -> (r: String)
    ensures
        r@ == join_lines(strings_view(v@)),
{
    let mut out = String::new();
    let n = v.len();
    let mut i: usize = 0;
    while i < n
        invariant
            n == v@.len(),
            i <= n,
            out@ == join_lines(strings_view(v@).subrange(0, i as int)),
        decreases n - i,
    {
        let ghost sub = strings_view(v@).subrange(0, i as int + 1);
        assert(sub.drop_last() =~= strings_view(v@).subrange(0, i as int));
        if i > 0 {
            crate::strs::push_char(&mut out, '\n');
        }
        crate::strs::append_string(&mut out, &v[i]);
        proof {
            if i == 0 {
                assert(out@ =~= sub[0]);
            } else {
                assert(out@ =~= join_lines(sub.drop_last()) + seq!['\n'] + sub.last());
            }
        }
        i = i + 1;
    }
    assert(strings_view(v@).subrange(0, n as int) =~= strings_view(v@));
    out
}

/// Styles the document's tree with the baseline rules followed by the
/// document's own style text.
pub fn to_styled_document<'a>(document: &'a Document) -> (r: StyledDocument<'a>)
    ensures
        r.document_element@ == styled_of(
            document_rules(document.document_element.view()),
            document.document_element.view(),
        ),
{
    let inners = document.get_style_inners();
    let mut styles = String::from_str(DEFAULT_STYLESHEET);
    crate::strs::push_char(&mut styles, '\n');
    let joined = join_with_newlines(&inners);
    crate::strs::append_string(&mut styles, &joined);
    assert(styles@ =~= style_text(document.document_element.view()));
    let stylesheet = match parse(styles) {
        Ok(s) => s,
        Err(_) => Stylesheet::new(Vec::new()),
    };
    assert(stylesheet@ =~= document_rules(document.document_element.view()));
    let document_element = to_styled_node(&document.document_element, &stylesheet);
    StyledDocument { document_element }
}

fn to_styled_node<'a>(node: &'a Box<Node>, stylesheet: &Stylesheet) -> (r: StyledNode<'a>)
    ensures
        r@ == styled_of(stylesheet@, node.view()),
    decreases node, 1int,
{
    let mut props = PropertyMap::new();
    let children = to_styled_nodes(&node.children, stylesheet);
    let ghost rules = stylesheet@;
    let k = stylesheet.rules.len();
    let mut i: usize = 0;
    assert(rules.subrange(0, 0) =~= Seq::<RuleModel>::empty());
    while i < k
        invariant
            k == stylesheet.rules@.len(),
            rules == stylesheet@,
            rules.len() == k,
            i <= k,
            props.wf(),
            props@ == cascade(rules.subrange(0, i as int), node.view()),
        decreases k - i,
    {
        let rule = &stylesheet.rules[i];
        let ghost base = props@;
        proof {
            let sub = rules.subrange(0, i as int + 1);
            assert(sub.drop_last() =~= rules.subrange(0, i as int));
            assert(sub.last() == rule@);
        }
        if rule.matches(node) {
            let m = rule.declarations.len();
            let mut j: usize = 0;
            assert(rule@.declarations.subrange(0, 0) =~= Seq::<(Seq<char>, ValueModel)>::empty());
            while j < m
                invariant
                    m == rule.declarations@.len(),
                    rule@.declarations.len() == m,
                    j <= m,
                    props.wf(),
                    props@ == apply_declarations(base, rule@.declarations.subrange(0, j as int)),
                decreases m - j,
            {
                let d = &rule.declarations[j];
                proof {
                    let sub = rule@.declarations.subrange(0, j as int + 1);
                    assert(sub.drop_last() =~= rule@.declarations.subrange(0, j as int));
                    assert(sub.last() == d@);
                }
                props.insert(d.name.clone(), d.value.clone());
                j = j + 1;
            }
            assert(rule@.declarations.subrange(0, m as int) =~= rule@.declarations);
        }
        i = i + 1;
    }
    assert(rules.subrange(0, k as int) =~= rules);
    StyledNode { node_type: &node.node_type, properties: props, children }
}

fn to_styled_nodes<'a>(nodes: &'a Vec<Box<Node>>, stylesheet: &Stylesheet) -> (r: Vec<StyledNode<'a>>)
    ensures
        styled_views(r@) == styled_children(stylesheet@, views(nodes@)),
    decreases nodes, 0int,
{
    let mut out: Vec<StyledNode<'a>> = Vec::new();
    let n = nodes.len();
    let mut i: usize = 0;
    proof {
        lemma_views_len(nodes@);
    }
    assert(views(nodes@).subrange(0, 0) =~= Seq::<Tree>::empty());
    while i < n
        invariant
            n == nodes@.len(),
            views(nodes@).len() == n,
            i <= n,
            styled_views(out@) == styled_children(stylesheet@, views(nodes@).subrange(0, i as int)),
        decreases n - i,
    {
        proof {
            lemma_views_index(nodes@, i as int);
            let sub = views(nodes@).subrange(0, i as int + 1);
            assert(sub.drop_last() =~= views(nodes@).subrange(0, i as int));
        }
        let s = to_styled_node(&nodes[i], stylesheet);
        let ghost before = out@;
        out.push(s);
        assert(out@.drop_last() =~= before);
        i = i + 1;
    }
    assert(views(nodes@).subrange(0, n as int) =~= views(nodes@));
    out
}

} // verus!
