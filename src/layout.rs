//! Box generation: a styled tree becomes a tree of block, inline,
//! anonymous and empty boxes.

use vstd::prelude::*;
use crate::css::ValueModel;
use crate::dom::{NodeKind, NodeType};
use crate::style::{display_of, styled_views, Display, PropertyMap, Styled, StyledDocument, StyledNode};

verus! {

#[derive(Debug, PartialEq, Eq, Structural, Clone, Copy)]
pub enum BoxType {
    /// Generates no visible content.
    NoneBox,
    /// Stacks its children vertically.
    BlockBox,
    /// Lays its children out horizontally.
    InlineBox,
    /// Synthesized to hold a run of inline boxes inside a block box.
    AnonymousBox,
}

/// The node and properties behind a box.
#[derive(Debug, PartialEq)]
pub struct BoxProps<'a> {
    pub node_type: &'a NodeType,
    pub properties: PropertyMap,
}

/// A box of the layout tree.
#[derive(Debug, PartialEq)]
pub struct LayoutBox<'a> {
    pub box_type: BoxType,
    pub box_props: Option<BoxProps<'a>>,
    pub children: Vec<LayoutBox<'a>>,
}

/// The layout tree of a document.
#[derive(Debug)]
pub struct LayoutDocument<'a> {
    pub top_box: LayoutBox<'a>,
}

/// The view of a box: its kind, the node and properties behind it, and its
/// children.
pub struct BoxModel {
    pub kind: BoxType,
    pub props: Option<(NodeKind, Seq<(Seq<char>, ValueModel)>)>,
    pub children: Seq<BoxModel>,
}

impl<'a> LayoutBox<'a> {
    pub open spec fn view(&self) -> BoxModel
        decreases self,
    {
        BoxModel {
            kind: self.box_type,
            props: match self.box_props {
                Some(p) => Some((p.node_type@, p.properties@)),
                None => None,
            },
            children: box_views(self.children@),
        }
    }
}

pub open spec fn box_views<'a>(cs: Seq<LayoutBox<'a>>) -> Seq<BoxModel>
    decreases cs,
{
    if cs.len() == 0 {
        Seq::empty()
    } else {
        box_views(cs.drop_last()).push(cs.last().view())
    }
}

/// The box for a styled node: nothing under a node that is not displayed;
/// a block box whose inline children are grouped into anonymous boxes; an
/// inline box holding its children's boxes.
pub open spec fn layout_of(s: Styled) -> BoxModel
    decreases s,
{
    match display_of(s.props) {
        Display::Hidden => BoxModel { kind: BoxType::NoneBox, props: None, children: Seq::empty() },
        Display::Block => BoxModel {
            kind: BoxType::BlockBox,
            props: Some((s.kind, s.props)),
            children: block_children(s.children),
        },
        Display::Inline => BoxModel {
            kind: BoxType::InlineBox,
            props: Some((s.kind, s.props)),
            children: inline_children(s.children),
        },
    }
}

/// The children of a block box: each block child's box in turn, and each
/// maximal run of inline children inside one anonymous box; children that
/// are not displayed are left out.
pub open spec fn block_children(cs: Seq<Styled>) -> Seq<BoxModel>
    decreases cs,
{
    if cs.len() == 0 {
        Seq::empty()
    } else {
        let prev = block_children(cs.drop_last());
        let c = cs.last();
        match display_of(c.props) {
            Display::Hidden => prev,
            Display::Block => prev.push(layout_of(c)),
            Display::Inline => if prev.len() > 0 && prev.last().kind == BoxType::AnonymousBox {
                prev.update(
                    prev.len() - 1,
                    BoxModel {
                        kind: prev.last().kind,
                        props: prev.last().props,
                        children: prev.last().children.push(layout_of(c)),
                    },
                )
            } else {
                prev.push(
                    BoxModel { kind: BoxType::AnonymousBox, props: None, children: seq![layout_of(c)] },
                )
            },
        }
    }
}

/// The children of an inline box: the boxes of the displayed children.
pub open spec fn inline_children(cs: Seq<Styled>) -> Seq<BoxModel>
    decreases cs,
{
    if cs.len() == 0 {
        Seq::empty()
    } else {
        let prev = inline_children(cs.drop_last());
        let c = cs.last();
        match display_of(c.props) {
            Display::Hidden => prev,
            _ => prev.push(layout_of(c)),
        }
    }
}

/// A block box whose children display inline, block, inline gets exactly
/// three children: an anonymous box holding the first child's box, the
/// second child's block box, and an anonymous box holding the third's.
pub proof fn lemma_inline_block_inline(s: Styled)
    requires
        display_of(s.props) == Display::Block,
        s.children.len() == 3,
        display_of(s.children[0].props) == Display::Inline,
        display_of(s.children[1].props) == Display::Block,
        display_of(s.children[2].props) == Display::Inline,
    ensures
        layout_of(s).kind == BoxType::BlockBox,
        layout_of(s).children == seq![
            BoxModel {
                kind: BoxType::AnonymousBox,
                props: None,
                children: seq![layout_of(s.children[0])],
            },
            layout_of(s.children[1]),
            BoxModel {
                kind: BoxType::AnonymousBox,
                props: None,
                children: seq![layout_of(s.children[2])],
            },
        ],
{
    let cs = s.children;
    let c1 = cs.subrange(0, 1);
    let c2 = cs.subrange(0, 2);
    assert(cs.drop_last() =~= c2);
    assert(c2.drop_last() =~= c1);
    assert(c1.drop_last() =~= Seq::<Styled>::empty());
    assert(c1.last() == cs[0] && c2.last() == cs[1] && cs.last() == cs[2]);
    assert(block_children(Seq::<Styled>::empty()) =~= Seq::<BoxModel>::empty());
    assert(layout_of(cs[1]).kind == BoxType::BlockBox);
    assert(block_children(c1) =~= seq![
        BoxModel { kind: BoxType::AnonymousBox, props: None, children: seq![layout_of(cs[0])] },
    ]);
    assert(block_children(c2) =~= block_children(c1).push(layout_of(cs[1])));
    assert(block_children(cs) =~= block_children(c2).push(
        BoxModel { kind: BoxType::AnonymousBox, props: None, children: seq![layout_of(cs[2])] },
    ));
}

pub open spec fn all_inline(bs: Seq<BoxModel>) -> bool {
    forall|m: int| 0 <= m < bs.len() ==> (#[trigger] bs[m]).kind == BoxType::InlineBox
}

/// A child as a block box holds it: a block box, or an anonymous box
/// holding one or more inline boxes.
pub open spec fn block_level(b: BoxModel) -> bool {
    b.kind == BoxType::BlockBox || (b.kind == BoxType::AnonymousBox && b.children.len() > 0
        && all_inline(b.children))
}

pub open spec fn is_anonymous(b: BoxModel) -> bool {
    b.kind == BoxType::AnonymousBox
}

/// Children as a block box holds them: each block-level, and no two
/// anonymous boxes side by side.
pub open spec fn grouped(bs: Seq<BoxModel>) -> bool {
    &&& forall|k: int| 0 <= k < bs.len() ==> block_level(#[trigger] bs[k])
    &&& forall|k: int| 0 <= k < bs.len() - 1 ==> !(is_anonymous(#[trigger] bs[k]) && is_anonymous(bs[k + 1]))
}

/// Whatever the children, a block box's children are grouped: each run of
/// inline children sits in one anonymous box between block boxes.
pub proof fn lemma_block_children_grouped(cs: Seq<Styled>)
    ensures
        grouped(block_children(cs)),
    decreases cs.len(),
{
    if cs.len() > 0 {
        lemma_block_children_grouped(cs.drop_last());
        let prev = block_children(cs.drop_last());
        let c = cs.last();
        let r = block_children(cs);
        match display_of(c.props) {
            Display::Hidden => {},
            Display::Block => {
                assert(layout_of(c).kind == BoxType::BlockBox);
                assert(r == prev.push(layout_of(c)));
                assert forall|k: int| 0 <= k < r.len() implies block_level(#[trigger] r[k]) by {
                    if k < prev.len() {
                        assert(r[k] == prev[k]);
                    }
                }
                assert forall|k: int| 0 <= k < r.len() - 1 implies !(is_anonymous(#[trigger] r[k])
                    && is_anonymous(r[k + 1])) by {
                    assert(r[k] == prev[k]);
                    if k + 1 < prev.len() {
                        assert(r[k + 1] == prev[k + 1]);
                    }
                }
            },
            Display::Inline => {
                assert(layout_of(c).kind == BoxType::InlineBox);
                if prev.len() > 0 && prev.last().kind == BoxType::AnonymousBox {
                    let old = prev.last();
                    let last = BoxModel {
                        kind: old.kind,
                        props: old.props,
                        children: old.children.push(layout_of(c)),
                    };
                    assert(r == prev.update(prev.len() - 1, last));
                    assert(block_level(old));
                    assert(all_inline(last.children)) by {
                        assert forall|m: int| 0 <= m < last.children.len() implies (
                        #[trigger] last.children[m]).kind == BoxType::InlineBox by {
                            if m < old.children.len() {
                                assert(last.children[m] == old.children[m]);
                            }
                        }
                    }
                    assert forall|k: int| 0 <= k < r.len() implies block_level(#[trigger] r[k]) by {
                        if k < prev.len() - 1 {
                            assert(r[k] == prev[k]);
                        }
                    }
                    assert forall|k: int| 0 <= k < r.len() - 1 implies !(is_anonymous(#[trigger] r[k])
                        && is_anonymous(r[k + 1])) by {
                        assert(r[k] == prev[k]);
                        if k + 1 < prev.len() - 1 {
                            assert(r[k + 1] == prev[k + 1]);
                        } else {
                            assert(is_anonymous(prev[k + 1]));
                        }
                    }
                } else {
                    let last = BoxModel {
                        kind: BoxType::AnonymousBox,
                        props: None,
                        children: seq![layout_of(c)],
                    };
                    assert(r == prev.push(last));
                    assert(all_inline(last.children));
                    assert forall|k: int| 0 <= k < r.len() implies block_level(#[trigger] r[k]) by {
                        if k < prev.len() {
                            assert(r[k] == prev[k]);
                        }
                    }
                    assert forall|k: int| 0 <= k < r.len() - 1 implies !(is_anonymous(#[trigger] r[k])
                        && is_anonymous(r[k + 1])) by {
                        assert(r[k] == prev[k]);
                        if k + 1 < prev.len() {
                            assert(r[k + 1] == prev[k + 1]);
                        }
                    }
                }
            },
        }
    }
}

proof fn lemma_box_views_push<'a>(cs: Seq<LayoutBox<'a>>, c: LayoutBox<'a>)
    ensures
        box_views(cs.push(c)) == box_views(cs).push(c.view()),
{
    assert(cs.push(c).drop_last() =~= cs);
}

proof fn lemma_box_views_len<'a>(cs: Seq<LayoutBox<'a>>)
    ensures
        box_views(cs).len() == cs.len(),
    decreases cs.len(),
{
    if cs.len() > 0 {
        lemma_box_views_len(cs.drop_last());
    }
}

proof fn lemma_box_views_update_last<'a>(cs: Seq<LayoutBox<'a>>, c: LayoutBox<'a>)
    requires
        cs.len() > 0,
    ensures
        box_views(cs.update(cs.len() - 1, c)) == box_views(cs).update(cs.len() - 1, c.view()),
        box_views(cs).last() == cs.last().view(),
{
    lemma_box_views_len(cs.drop_last());
    assert(cs.update(cs.len() - 1, c).drop_last() =~= cs.drop_last());
    assert(box_views(cs.update(cs.len() - 1, c)) =~= box_views(cs).update(cs.len() - 1, c.view()));
}

proof fn lemma_styled_views_split<'a>(cs: Seq<StyledNode<'a>>, i: int)
    requires
        0 <= i < cs.len(),
    ensures
        styled_views(cs.subrange(0, i + 1)) == styled_views(cs.subrange(0, i)).push(cs[i].view()),
{
    assert(cs.subrange(0, i + 1).drop_last() =~= cs.subrange(0, i));
}

/// The box tree for a styled node.
pub fn to_layout_box<'a>(snode: StyledNode<'a>) -> (r: LayoutBox<'a>)
    ensures
        r@ == layout_of(snode@),
    decreases snode,
{
    let display = snode.display();
    if display == Display::Hidden {
        let r = LayoutBox { box_type: BoxType::NoneBox, box_props: None, children: Vec::new() };
        assert(box_views(r.children@) =~= Seq::<BoxModel>::empty());
        return r;
    }
    let ghost sv = snode@;
    let ghost whole = snode;
    let ghost all = snode.children@;
    let StyledNode { node_type, properties, children } = snode;
    let mut children = children;
    let mut out: Vec<LayoutBox<'a>> = Vec::new();
    let n = children.len();
    let mut i: usize = 0;
    assert(all.subrange(0, 0) =~= Seq::<StyledNode<'a>>::empty());
    assert(box_views(out@) =~= Seq::<BoxModel>::empty());
    while children.len() > 0
        invariant
            n == all.len(),
            i + children@.len() == n,
            children@ == all.subrange(i as int, n as int),
            whole == snode,
            all == whole.children@,
            sv.children == styled_views(all),
            display == display_of(sv.props),
            display != Display::Hidden,
            box_views(out@) == (if display == Display::Block {
                block_children(styled_views(all.subrange(0, i as int)))
            } else {
                inline_children(styled_views(all.subrange(0, i as int)))
            }),
        decreases children@.len(),
    {
        let child = children.remove(0);
        proof {
            lemma_styled_views_split(all, i as int);
            assert(child == all[i as int]);
            assert(decreases_to!(whole => whole.children));
            assert(decreases_to!(whole.children => whole.children@));
            assert(decreases_to!(whole.children@ => whole.children@[i as int]));
            assert(decreases_to!(whole => child));
            assert(children@ =~= all.subrange(i as int + 1, n as int));
        }
        let ghost cv = child@;
        let ghost prev = box_views(out@);
        let ghost x = styled_views(all.subrange(0, i as int));
        let ghost y = styled_views(all.subrange(0, i as int + 1));
        proof {
            assert(y == x.push(cv));
            assert(y.drop_last() =~= x);
            assert(y.last() == cv);
            assert(y.len() > 0);
        }
        let cd = child.display();
        if cd == Display::Hidden {
            // a node that is not displayed leaves no box
        } else if cd == Display::Block || display == Display::Inline {
            let b = to_layout_box(child);
            proof {
                lemma_box_views_push(out@, b);
            }
            out.push(b);
        } else {
            // an inline child of a block box joins the anonymous box that
            // ends the children so far, or opens a new one
            let b = to_layout_box(child);
            let k = out.len();
            if k > 0 && out[k - 1].box_type == BoxType::AnonymousBox {
                let ghost old_out = out@;
                let mut last = out.pop().unwrap();
                let ghost old_last = last;
                proof {
                    lemma_box_views_push(last.children@, b);
                    lemma_box_views_update_last(old_out, old_last);
                    assert(prev.last() == old_last@);
                }
                last.children.push(b);
                assert(last@ == BoxModel {
                    kind: prev.last().kind,
                    props: prev.last().props,
                    children: prev.last().children.push(layout_of(cv)),
                });
                proof {
                    assert(old_out =~= out@.push(old_last));
                    lemma_box_views_push(out@, old_last);
                    lemma_box_views_push(out@, last);
                    lemma_box_views_len(out@);
                    assert(box_views(out@.push(last)) =~= prev.update(prev.len() - 1, last@));
                }
                out.push(last);
            } else {
                let mut group: Vec<LayoutBox<'a>> = Vec::new();
                proof {
                    lemma_box_views_push(group@, b);
                    assert(box_views(group@) =~= Seq::<BoxModel>::empty());
                    lemma_box_views_len(out@);
                    if k > 0 {
                        lemma_box_views_update_last(out@, out@.last());
                        assert(out@.update(k - 1, out@.last()) =~= out@);
                    }
                }
                group.push(b);
                let a = LayoutBox { box_type: BoxType::AnonymousBox, box_props: None, children: group };
                assert(box_views(a.children@) =~= seq![layout_of(cv)]);
                assert(a@ == BoxModel { kind: BoxType::AnonymousBox, props: None, children: seq![layout_of(cv)] });
                proof {
                    lemma_box_views_push(out@, a);
                }
                out.push(a);
            }
        }
        i = i + 1;
    }
    assert(all.subrange(0, n as int) =~= all);
    let props = BoxProps { node_type, properties };
    LayoutBox {
        box_type: if display == Display::Block {
            BoxType::BlockBox
        } else {
            BoxType::InlineBox
        },
        box_props: Some(props),
        children: out,
    }
}

/// The box tree for a styled document.
pub fn to_layout_document<'a>(styled: StyledDocument<'a>) -> (r: LayoutDocument<'a>)
    ensures
        r.top_box@ == layout_of(styled.document_element@),
{
    LayoutDocument { top_box: to_layout_box(styled.document_element) }
}

} // verus!
