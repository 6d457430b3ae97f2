//! The markup grammar: text in, a forest of element and text nodes out.

use vstd::prelude::*;
use crate::dom::{
    attr_markup, attrs_markup, children_markup, keys_unique, markup_of, attr_insert, lemma_views_index, lemma_views_push, pair_view, views, AttrMap, Element, Node, NodeKind, NodeType, Text,
    Tree,
};
use crate::document::Document;
use crate::fetch::Response;
use crate::strs::{is_name_char, is_space, letter_char, space_char, string_of_range};

verus! {

/// Why the markup grammar refused its input.
#[derive(Debug, PartialEq, Eq)]
pub enum HTMLParseError {
    /// The input is not well-formed at the given character offset.
    InvalidResourceError(usize),
}

pub open spec fn is_ws(c: char) -> bool {
    space_char(c) || c == '\n'
}

pub open spec fn letter_at(s: Seq<char>, i: int) -> bool {
    0 <= i < s.len() && letter_char(s[i])
}

pub open spec fn char_at(s: Seq<char>, i: int, c: char) -> bool {
    0 <= i < s.len() && s[i] == c
}

/// The end of the run of letters starting at `i`.
pub open spec fn letters_end(s: Seq<char>, i: int) -> int
    decreases s.len() - i,
{
    if 0 <= i < s.len() && letter_char(s[i]) {
        letters_end(s, i + 1)
    } else {
        i
    }
}

/// The end of the run of whitespace starting at `i`.
pub open spec fn spaces_end(s: Seq<char>, i: int) -> int
    decreases s.len() - i,
{
    if 0 <= i < s.len() && is_ws(s[i]) {
        spaces_end(s, i + 1)
    } else {
        i
    }
}

/// The end of the run of characters other than `stop` starting at `i`.
pub open spec fn run_end(s: Seq<char>, i: int, stop: char) -> int
    decreases s.len() - i,
{
    if 0 <= i < s.len() && s[i] != stop {
        run_end(s, i + 1, stop)
    } else {
        i
    }
}

pub open spec fn quot_entity() -> Seq<char> {
    seq!['&', 'q', 'u', 'o', 't', ';']
}

/// `v` with each `&quot;`, taken left to right, replaced by a quote.
pub open spec fn unescape(v: Seq<char>) -> Seq<char>
    decreases v.len(),
{
    if v.len() == 0 {
        v
    } else if v.len() >= 6 && v.subrange(0, 6) == quot_entity() {
        seq!['"'] + unescape(v.subrange(6, v.len() as int))
    } else {
        seq![v[0]] + unescape(v.subrange(1, v.len() as int))
    }
}

/// `name ws* = ws* "value"` at `i`: the pair and the end.
pub open spec fn attribute_at(s: Seq<char>, i: int) -> Option<((Seq<char>, Seq<char>), int)> {
    let n = letters_end(s, i);
    let e = spaces_end(s, n);
    let q = spaces_end(s, e + 1);
    let v = run_end(s, q + 1, '"');
    if 0 <= i && n > i && char_at(s, e, '=') && char_at(s, q, '"') && v > q + 1 && char_at(
        s,
        v,
        '"',
    ) {
        Some(((s.subrange(i, n), unescape(s.subrange(q + 1, v))), v + 1))
    } else {
        None
    }
}

/// The attributes that follow a first one ending at `i`, each after a run
/// of whitespace. A run of whitespace that no attribute follows is refused.
pub open spec fn attributes_rest(s: Seq<char>, i: int) -> Option<(Seq<(Seq<char>, Seq<char>)>, int)>
    decreases s.len() - i,
{
    let j = spaces_end(s, i);
    match attribute_at(s, j) {
        Some((p, k)) => if i < k <= s.len() {
            match attributes_rest(s, k) {
                Some((ps, e)) => Some((seq![p] + ps, e)),
                None => None,
            }
        } else {
            None
        },
        None => if j == i && !letter_at(s, j) {
            Some((Seq::empty(), i))
        } else {
            None
        },
    }
}

/// A whitespace-separated list of attributes at `i`, possibly empty.
pub open spec fn attributes_at(s: Seq<char>, i: int) -> Option<(Seq<(Seq<char>, Seq<char>)>, int)> {
    match attribute_at(s, i) {
        Some((p, k)) => match attributes_rest(s, k) {
            Some((ps, e)) => Some((seq![p] + ps, e)),
            None => None,
        },
        None => if !letter_at(s, i) {
            Some((Seq::empty(), i))
        } else {
            None
        },
    }
}

/// The attribute map that setting each pair in turn gives.
pub open spec fn insert_all(
    acc: Seq<(Seq<char>, Seq<char>)>,
    ps: Seq<(Seq<char>, Seq<char>)>,
) -> Seq<(Seq<char>, Seq<char>)>
    decreases ps.len(),
{
    if ps.len() == 0 {
        acc
    } else {
        insert_all(attr_insert(acc, ps[0].0, ps[0].1), ps.drop_first())
    }
}

/// `<name attributes>` at `i`: the name, the attribute list and the end.
pub open spec fn open_tag_at(s: Seq<char>, i: int) -> Option<(Seq<char>, Seq<(Seq<char>, Seq<char>)>, int)> {
    let n = letters_end(s, i + 1);
    let j = spaces_end(s, n);
    if char_at(s, i, '<') && n > i + 1 {
        match attributes_at(s, j) {
            Some((ps, k)) => if char_at(s, k, '>') {
                Some((s.subrange(i + 1, n), ps, k + 1))
            } else {
                None
            },
            None => None,
        }
    } else {
        None
    }
}

/// `</name>` at `i`: the name and the end.
pub open spec fn close_tag_at(s: Seq<char>, i: int) -> Option<(Seq<char>, int)> {
    let n = letters_end(s, i + 2);
    if char_at(s, i, '<') && char_at(s, i + 1, '/') && n > i + 2 && char_at(s, n, '>') {
        Some((s.subrange(i + 2, n), n + 1))
    } else {
        None
    }
}

pub open spec fn text_tree(data: Seq<char>) -> Tree {
    Tree { kind: NodeKind::Text { data }, children: Seq::empty() }
}

pub open spec fn element_tree(tag: Seq<char>, ps: Seq<(Seq<char>, Seq<char>)>, children: Seq<Tree>) -> Tree {
    Tree {
        kind: NodeKind::Element { tag, attrs: insert_all(Seq::empty(), ps) },
        children,
    }
}

/// An element at `i`: an open tag, a node sequence and a close tag of the
/// same name.
pub open spec fn element_at(s: Seq<char>, i: int) -> Option<(Tree, int)>
    decreases s.len() - i, 0int,
{
    if 0 <= i <= s.len() {
        match open_tag_at(s, i) {
            Some((tag, ps, j)) => if i < j <= s.len() {
                let (cs, k) = nodes_at(s, j);
                match close_tag_at(s, k) {
                    Some((tag2, e)) => if tag2 == tag {
                        Some((element_tree(tag, ps, cs), e))
                    } else {
                        None
                    },
                    None => None,
                }
            } else {
                None
            },
            None => None,
        }
    } else {
        None
    }
}

/// The longest sequence of elements and text runs at `i`, and its end.
pub open spec fn nodes_at(s: Seq<char>, i: int) -> (Seq<Tree>, int)
    decreases s.len() - i, 1int,
{
    if 0 <= i < s.len() {
        if s[i] == '<' {
            match element_at(s, i) {
                Some((t, j)) => if i < j <= s.len() {
                    let (rest, e) = nodes_at(s, j);
                    (seq![t] + rest, e)
                } else {
                    (Seq::empty(), i)
                },
                None => (Seq::empty(), i),
            }
        } else {
            let j = run_end(s, i, '<');
            if i < j <= s.len() {
                let (rest, e) = nodes_at(s, j);
                (seq![text_tree(s.subrange(i, j))] + rest, e)
            } else {
                (Seq::empty(), i)
            }
        }
    } else {
        (Seq::empty(), i)
    }
}

/// The forest that the whole of `s` spells, if the node sequence grammar
/// covers all of it.
pub open spec fn parse_forest(s: Seq<char>) -> Option<Seq<Tree>> {
    let (ns, e) = nodes_at(s, 0);
    if e == s.len() {
        Some(ns)
    } else {
        None
    }
}

pub proof fn lemma_run_end_bounds(s: Seq<char>, i: int, stop: char)
    requires
        0 <= i <= s.len(),
    ensures
        i <= run_end(s, i, stop) <= s.len(),
        run_end(s, i, stop) == s.len() || s[run_end(s, i, stop)] == stop,
        forall|k: int| i <= k < run_end(s, i, stop) ==> s[k] != stop,
    decreases s.len() - i,
{
    if i < s.len() && s[i] != stop {
        lemma_run_end_bounds(s, i + 1, stop);
    }
}

pub(crate) fn letters_end_exec(s: &Vec<char>, i: usize) -> (r: usize)
    requires
        i <= s@.len(),
    ensures
        r == letters_end(s@, i as int),
        i <= r <= s@.len(),
{
    let mut j = i;
    while j < s.len() && is_name_char(s[j])
        invariant
            i <= j <= s@.len(),
            letters_end(s@, i as int) == letters_end(s@, j as int),
        decreases s@.len() - j,
    {
        j = j + 1;
    }
    j
}

pub(crate) fn spaces_end_exec(s: &Vec<char>, i: usize) -> (r: usize)
    requires
        i <= s@.len(),
    ensures
        r == spaces_end(s@, i as int),
        i <= r <= s@.len(),
{
    let mut j = i;
    while j < s.len() && (is_space(s[j]) || s[j] == '\n')
        invariant
            i <= j <= s@.len(),
            spaces_end(s@, i as int) == spaces_end(s@, j as int),
        decreases s@.len() - j,
    {
        j = j + 1;
    }
    j
}

fn run_end_exec(s: &Vec<char>, i: usize, stop: char) -> (r: usize)
    requires
        i <= s@.len(),
    ensures
        r == run_end(s@, i as int, stop),
        i <= r <= s@.len(),
{
    let mut j = i;
    while j < s.len() && s[j] != stop
        invariant
            i <= j <= s@.len(),
            run_end(s@, i as int, stop) == run_end(s@, j as int, stop),
        decreases s@.len() - j,
    {
        j = j + 1;
    }
    j
}

fn has_entity_at(s: &Vec<char>, p: usize, to: usize) -> (r: bool)
    requires
        p <= to <= s@.len(),
    ensures
        r == (to - p >= 6 && s@.subrange(p as int, to as int).subrange(0, 6) == quot_entity()),
{
    if to - p < 6 {
        return false;
    }
    let r = s[p] == '&' && s[p + 1] == 'q' && s[p + 2] == 'u' && s[p + 3] == 'o' && s[p + 4] == 't'
        && s[p + 5] == ';';
    assert(r == (s@.subrange(p as int, to as int).subrange(0, 6) =~= quot_entity()));
    r
}

/// The characters of `s` from `from` up to `to`, with `&quot;` unescaped.
fn unescape_range(s: &Vec<char>, from: usize, to: usize) -> (r: String)
    requires
        from <= to <= s@.len(),
    ensures
        r@ == unescape(s@.subrange(from as int, to as int)),
{
    let mut out = String::new();
    let mut p = from;
    while p < to
        invariant
            from <= p <= to <= s@.len(),
            unescape(s@.subrange(from as int, to as int)) == out@ + unescape(
                s@.subrange(p as int, to as int),
            ),
        decreases to - p,
    {
        let ghost rest = s@.subrange(p as int, to as int);
        if has_entity_at(s, p, to) {
            crate::strs::push_char(&mut out, '"');
            assert(rest.subrange(6, rest.len() as int) =~= s@.subrange(p + 6, to as int));
            p = p + 6;
        } else {
            crate::strs::push_char(&mut out, s[p]);
            assert(rest.subrange(1, rest.len() as int) =~= s@.subrange(p + 1, to as int));
            p = p + 1;
        }
    }
    assert(s@.subrange(to as int, to as int) =~= Seq::<char>::empty());
    out
}

/// `name ws* = ws* "value"` at `i`, with `&quot;` in the value unescaped.
pub fn attribute(s: &Vec<char>, i: usize) -> (r: Option<((String, String), usize)>)
    requires
        i <= s@.len(),
    ensures
        r matches Some((p, k)) ==> attribute_at(s@, i as int) == Some((pair_view(p), k as int))
            && k <= s@.len(),
        r is None ==> attribute_at(s@, i as int) is None,
{
    let n = letters_end_exec(s, i);
    if n == i {
        return None;
    }
    let e = spaces_end_exec(s, n);
    if !(e < s.len() && s[e] == '=') {
        return None;
    }
    let q = spaces_end_exec(s, e + 1);
    if !(q < s.len() && s[q] == '"') {
        return None;
    }
    let v = run_end_exec(s, q + 1, '"');
    if !(v > q + 1 && v < s.len() && s[v] == '"') {
        return None;
    }
    let name = string_of_range(s, i, n);
    let value = unescape_range(s, q + 1, v);
    Some(((name, value), v + 1))
}

/// The run of characters other than `<` at `i`, which must not be empty,
/// as a text node.
pub fn text(s: &Vec<char>, i: usize) -> (r: (Box<Node>, usize))
    requires
        i < s@.len(),
        s@[i as int] != '<',
    ensures
        r.0.view() == text_tree(s@.subrange(i as int, r.1 as int)),
        r.1 == run_end(s@, i as int, '<'),
        i < r.1 <= s@.len(),
{
    let j = run_end_exec(s, i, '<');
    proof {
        lemma_run_end_bounds(s@, i + 1, '<');
    }
    let data = string_of_range(s, i, j);
    let n = Box::new(Node { node_type: NodeType::Text(Text { data }), children: Vec::new() });
    proof {
        assert(n.children@ =~= Seq::<Box<Node>>::empty());
        assert(views(n.children@) =~= Seq::<Tree>::empty());
    }
    (n, j)
}

/// A whitespace-separated list of attributes at `i`, possibly empty, as a
/// map.
pub fn attributes(s: &Vec<char>, i: usize) -> (r: Option<(AttrMap, usize)>)
    requires
        i <= s@.len(),
    ensures
        r matches Some((m, k)) ==> attributes_at(s@, i as int) matches Some((ps, e)) && m@
            == insert_all(Seq::empty(), ps) && e == k && m.wf(),
        r is None ==> attributes_at(s@, i as int) is None,
{
    match attribute_list(s, i) {
        None => None,
        Some((v, k)) => Some((to_attr_map(v), k)),
    }
}

pub open spec fn pairs_view(v: Seq<(String, String)>) -> Seq<(Seq<char>, Seq<char>)> {
    v.map_values(|p: (String, String)| pair_view(p))
}

fn attribute_list(s: &Vec<char>, i: usize) -> (r: Option<(Vec<(String, String)>, usize)>)
    requires
        i <= s@.len(),
    ensures
        r matches Some((v, k)) ==> attributes_at(s@, i as int) == Some((pairs_view(v@), k as int))
            && k <= s@.len(),
        r is None ==> attributes_at(s@, i as int) is None,
{
    let mut v: Vec<(String, String)> = Vec::new();
    let mut k: usize;
    match attribute(s, i) {
        None => {
            if i < s.len() && is_name_char(s[i]) {
                return None;
            }
            assert(pairs_view(v@) =~= Seq::<(Seq<char>, Seq<char>)>::empty());
            return Some((v, i));
        },
        Some((p, k1)) => {
            v.push(p);
            k = k1;
        },
    }
    assert(pairs_view(v@) =~= seq![pair_view(v@[0])]);
    loop
        invariant
            k <= s@.len(),
            attributes_at(s@, i as int) == match attributes_rest(s@, k as int) {
                Some((ps, e)) => Some((pairs_view(v@) + ps, e)),
                None => None,
            },
        decreases s@.len() - k,
    {
        let j = spaces_end_exec(s, k);
        match attribute(s, j) {
            Some((p, k2)) => {
                if !(k < k2) {
                    return None;
                }
                let ghost before = v@;
                v.push(p);
                proof {
                    assert(pairs_view(v@) =~= pairs_view(before).push(pair_view(p)));
                    match attributes_rest(s@, k2 as int) {
                        Some((ps, e)) => {
                            assert(pairs_view(v@) + ps =~= pairs_view(before) + (seq![pair_view(p)] + ps));
                        },
                        None => {},
                    }
                }
                k = k2;
            },
            None => {
                if j == k && !(j < s.len() && is_name_char(s[j])) {
                    assert(pairs_view(v@) + Seq::<(Seq<char>, Seq<char>)>::empty() =~= pairs_view(v@));
                    return Some((v, k));
                }
                return None;
            },
        }
    }
}

fn to_attr_map(v: Vec<(String, String)>) -> (r: AttrMap)
    ensures
        r@ == insert_all(Seq::empty(), pairs_view(v@)),
        r.wf(),
{
    let mut m = AttrMap::new();
    let mut v = v;
    let ghost all = pairs_view(v@);
    let mut rest: Vec<(String, String)> = Vec::new();
    // take the pairs off the back, then insert them front to back
    while v.len() > 0
        invariant
            pairs_view(v@) + pairs_view(rest@).reverse() == all,
        decreases v@.len(),
    {
        let ghost before_v = v@;
        let ghost before_r = rest@;
        let p = v.pop().unwrap();
        rest.push(p);
        assert(pairs_view(before_v) =~= pairs_view(v@).push(pair_view(p)));
        assert(pairs_view(rest@) =~= pairs_view(before_r).push(pair_view(p)));
        assert(pairs_view(rest@).reverse() =~= seq![pair_view(p)] + pairs_view(before_r).reverse());
        assert(pairs_view(v@) + pairs_view(rest@).reverse() =~= pairs_view(before_v)
            + pairs_view(before_r).reverse());
    }
    assert(pairs_view(v@) =~= Seq::<(Seq<char>, Seq<char>)>::empty());
    assert(pairs_view(rest@).reverse() =~= all);
    while rest.len() > 0
        invariant
            m.wf(),
            insert_all(Seq::empty(), all) == insert_all(m@, pairs_view(rest@).reverse()),
        decreases rest@.len(),
    {
        let ghost before_r = rest@;
        let (key, value) = rest.pop().unwrap();
        proof {
            let pv = pairs_view(before_r).reverse();
            assert(pairs_view(before_r) =~= pairs_view(rest@).push((key@, value@)));
            assert(pv[0] == (key@, value@));
            assert(pv.drop_first() =~= pairs_view(rest@).reverse());
        }
        m.insert(key, value);
    }
    assert(pairs_view(rest@).reverse() =~= Seq::<(Seq<char>, Seq<char>)>::empty());
    m
}

/// `<name attributes>` at `i`.
pub fn open_tag(s: &Vec<char>, i: usize) -> (r: Option<(String, AttrMap, usize)>)
    requires
        i <= s@.len(),
    ensures
        r matches Some((name, m, k)) ==> open_tag_at(s@, i as int) matches Some((tag, ps, e)) && tag
            == name@ && m@ == insert_all(Seq::empty(), ps) && e == k && k <= s@.len() && m.wf(),
        r is None ==> open_tag_at(s@, i as int) is None,
{
    if !(i < s.len() && s[i] == '<') {
        return None;
    }
    let n = letters_end_exec(s, i + 1);
    if n == i + 1 {
        return None;
    }
    let j = spaces_end_exec(s, n);
    match attribute_list(s, j) {
        None => None,
        Some((v, k)) => {
            if !(k < s.len() && s[k] == '>') {
                return None;
            }
            let name = string_of_range(s, i + 1, n);
            let m = to_attr_map(v);
            Some((name, m, k + 1))
        },
    }
}

/// `</name>` at `i`.
pub fn close_tag(s: &Vec<char>, i: usize) -> (r: Option<(String, usize)>)
    requires
        i <= s@.len(),
    ensures
        r matches Some((name, k)) ==> close_tag_at(s@, i as int) == Some((name@, k as int)) && k
            <= s@.len(),
        r is None ==> close_tag_at(s@, i as int) is None,
{
    if !(i < s.len() && i + 1 < s.len() && s[i] == '<' && s[i + 1] == '/') {
        return None;
    }
    let n = letters_end_exec(s, i + 2);
    if !(n > i + 2 && n < s.len() && s[n] == '>') {
        return None;
    }
    Some((string_of_range(s, i + 2, n), n + 1))
}

/// An element at `i`, with its children, closed by a tag of the same name.
pub fn element(s: &Vec<char>, i: usize) -> (r: Option<(Box<Node>, usize)>)
    requires
        i <= s@.len(),
    ensures
        r matches Some((n, k)) ==> element_at(s@, i as int) == Some((n.view(), k as int)) && k
            <= s@.len(),
        r is None ==> element_at(s@, i as int) is None,
    decreases s@.len() - i, 0int,
{
    match open_tag(s, i) {
        None => None,
        Some((tag_name, attributes, j)) => {
            if !(i < j) {
                return None;
            }
            let (children, k) = nodes(s, j);
            match close_tag(s, k) {
                None => None,
                Some((tag2, e)) => {
                    if !crate::strs::str_eq(tag2.as_str(), tag_name.as_str()) {
                        return None;
                    }
                    let n = Box::new(
                        Node {
                            node_type: NodeType::Element(Element { tag_name, attributes }),
                            children,
                        },
                    );
                    Some((n, e))
                },
            }
        },
    }
}

/// The longest sequence of elements and text runs at `i`.
pub fn nodes(s: &Vec<char>, i: usize) -> (r: (Vec<Box<Node>>, usize))
    requires
        i <= s@.len(),
    ensures
        nodes_at(s@, i as int) == (views(r.0@), r.1 as int),
        r.1 <= s@.len(),
    decreases s@.len() - i, 1int,
{
    let mut acc: Vec<Box<Node>> = Vec::new();
    let mut p = i;
    assert(views(acc@) + nodes_at(s@, p as int).0 =~= nodes_at(s@, p as int).0);
    while p < s.len()
        invariant
            i <= p <= s@.len(),
            nodes_at(s@, i as int) == (views(acc@) + nodes_at(s@, p as int).0, nodes_at(
                s@,
                p as int,
            ).1),
        decreases s@.len() - p,
    {
        let ghost before = acc@;
        if s[p] == '<' {
            match element(s, p) {
                None => {
                    assert(views(acc@) + Seq::<Tree>::empty() =~= views(acc@));
                    return (acc, p);
                },
                Some((n, j)) => {
                    if !(p < j) {
                        assert(views(acc@) + Seq::<Tree>::empty() =~= views(acc@));
                        return (acc, p);
                    }
                    let ghost t = n.view();
                    acc.push(n);
                    proof {
                        lemma_views_push(before, n);
                        assert(views(acc@) + nodes_at(s@, j as int).0 =~= views(before) + (seq![t]
                            + nodes_at(s@, j as int).0));
                    }
                    p = j;
                },
            }
        } else {
            let (n, j) = text(s, p);
            let ghost t = n.view();
            acc.push(n);
            proof {
                lemma_views_push(before, n);
                assert(t == text_tree(s@.subrange(p as int, j as int)));
                assert(views(acc@) + nodes_at(s@, j as int).0 =~= views(before) + (seq![t]
                    + nodes_at(s@, j as int).0));
            }
            p = j;
        }
    }
    assert(views(acc@) + Seq::<Tree>::empty() =~= views(acc@));
    (acc, p)
}

/// Parses `text` as a sequence of elements and text runs that must cover
/// all of it.
pub fn parse_fragment(text: &str) -> (r: Result<Vec<Box<Node>>, HTMLParseError>)
    ensures
        r matches Ok(ns) ==> parse_forest(text@) == Some(views(ns@)),
        r is Err <==> parse_forest(text@) is None,
{
    let s = crate::strs::to_chars(text);
    let (ns, e) = nodes(&s, 0);
    if e == s.len() {
        Ok(ns)
    } else {
        Err(HTMLParseError::InvalidResourceError(e))
    }
}

/// Parses a UTF-8 payload into its top-level nodes.
pub fn parse_without_normalziation(data: Vec<u8>) -> (r: Result<Vec<Box<Node>>, HTMLParseError>)
    requires
        vstd::utf8::valid_utf8(data@),
    ensures
        r matches Ok(ns) ==> parse_forest(vstd::utf8::decode_utf8(data@)) == Some(views(ns@)),
        r is Err <==> parse_forest(vstd::utf8::decode_utf8(data@)) is None,
{
    let body = crate::strs::string_from_utf8(data).unwrap();
    parse_fragment(body.as_str())
}

pub open spec fn html_tag() -> Seq<char> {
    seq!['h', 't', 'm', 'l']
}

/// The document root for a parsed forest: its only node, or else an `html`
/// element without attributes holding all of them.
pub open spec fn document_tree(forest: Seq<Tree>) -> Tree {
    if forest.len() == 1 {
        forest[0]
    } else {
        Tree { kind: NodeKind::Element { tag: html_tag(), attrs: Seq::empty() }, children: forest }
    }
}

/// Parses a fetched payload into a document whose address is the
/// response's.
pub fn parse(response: Response) -> (r: Result<Document, HTMLParseError>)
    requires
        vstd::utf8::valid_utf8(response.data@),
    ensures
        r is Err <==> parse_forest(vstd::utf8::decode_utf8(response.data@)) is None,
        r matches Ok(d) ==> parse_forest(vstd::utf8::decode_utf8(response.data@)) matches Some(f)
            && d.document_element.view() == document_tree(f) && d.url@ == response.url@
            && d.document_uri@ == response.url@,
{
    let url = response.url;
    match parse_without_normalziation(response.data) {
        Ok(nodes) => {
            let mut nodes = nodes;
            let ghost forest = views(nodes@);
            proof {
                crate::dom::lemma_views_len(nodes@);
            }
            let document_element = if nodes.len() == 1 {
                proof {
                    lemma_views_index(nodes@, 0);
                }
                let ghost first = nodes@[0];
                let n = nodes.pop().unwrap();
                assert(n == first);
                assert(n.view() == forest[0]);
                n
            } else {
                proof {
                    reveal_strlit("html");
                    assert("html"@ =~= html_tag());
                }
                Element::new(String::from_str("html"), AttrMap::new(), nodes)
            };
            assert(document_element.view() == document_tree(forest));
            Ok(Document::new(url.clone(), url, document_element))
        },
        Err(e) => Err(e),
    }
}

pub proof fn lemma_letters_end(s: Seq<char>, i: int, j: int)
    requires
        0 <= i <= j <= s.len(),
        forall|k: int| i <= k < j ==> letter_char(#[trigger] s[k]),
        j == s.len() || !letter_char(s[j]),
    ensures
        letters_end(s, i) == j,
    decreases j - i,
{
    if i < j {
        lemma_letters_end(s, i + 1, j);
    }
}

pub proof fn lemma_run_end_exact(s: Seq<char>, i: int, j: int, stop: char)
    requires
        0 <= i <= j <= s.len(),
        forall|k: int| i <= k < j ==> #[trigger] s[k] != stop,
        j == s.len() || s[j] == stop,
    ensures
        run_end(s, i, stop) == j,
    decreases j - i,
{
    if i < j {
        lemma_run_end_exact(s, i + 1, j, stop);
    }
}

pub open spec fn is_name(a: Seq<char>) -> bool {
    a.len() > 0 && forall|k: int| 0 <= k < a.len() ==> letter_char(#[trigger] a[k])
}


/// A value that the serializer writes back unchanged: not empty, with no
/// quote and no `&quot;` in it.
pub open spec fn plain_value(v: Seq<char>) -> bool {
    &&& v.len() > 0
    &&& forall|k: int| 0 <= k < v.len() ==> #[trigger] v[k] != '"'
    &&& forall|k: int| 0 <= k && k + 6 <= v.len() ==> #[trigger] v.subrange(k, k + 6) != quot_entity()
}

pub open spec fn wf_attrs(attrs: Seq<(Seq<char>, Seq<char>)>) -> bool {
    &&& keys_unique(attrs)
    &&& forall|k: int| 0 <= k < attrs.len() ==> is_name(#[trigger] attrs[k].0) && plain_value(attrs[k].1)
}

pub open spec fn is_text(t: Tree) -> bool {
    t.kind is Text
}

/// A tree that markup can spell: element and attribute names of letters,
/// plain attribute values without repeated names, text that is not empty
/// and holds no `<`, and no two text nodes side by side.
pub open spec fn wf_tree(t: Tree) -> bool
    decreases t,
{
    match t.kind {
        NodeKind::Text { data } => data.len() > 0 && (forall|k: int|
            0 <= k < data.len() ==> #[trigger] data[k] != '<') && t.children.len() == 0,
        NodeKind::Element { tag, attrs } => is_name(tag) && wf_attrs(attrs) && wf_forest(t.children),
    }
}

pub open spec fn wf_forest(ns: Seq<Tree>) -> bool
    decreases ns,
{
    if ns.len() == 0 {
        true
    } else {
        wf_tree(ns[0]) && wf_forest(ns.drop_first()) && !(ns.len() >= 2 && is_text(ns[0]) && is_text(
            ns[1],
        ))
    }
}

pub open spec fn matches_at(s: Seq<char>, i: int, w: Seq<char>) -> bool {
    0 <= i && i + w.len() <= s.len() && s.subrange(i, i + w.len()) == w
}

proof fn lemma_matches_split(s: Seq<char>, i: int, a: Seq<char>, b: Seq<char>)
    requires
        matches_at(s, i, a + b),
    ensures
        matches_at(s, i, a),
        matches_at(s, i + a.len(), b),
        forall|k: int| 0 <= k < a.len() ==> s[i + k] == #[trigger] a[k],
        forall|k: int| 0 <= k < b.len() ==> s[i + a.len() + k] == #[trigger] b[k],
{
    let w = s.subrange(i, i + (a + b).len());
    assert(w == a + b);
    assert(s.subrange(i, i + a.len()) =~= w.subrange(0, a.len() as int));
    assert(w.subrange(0, a.len() as int) =~= a);
    assert(s.subrange(i + a.len(), i + a.len() + b.len()) =~= w.subrange(a.len() as int, w.len() as int));
    assert(w.subrange(a.len() as int, w.len() as int) =~= b);
    assert forall|k: int| 0 <= k < a.len() implies s[i + k] == #[trigger] a[k] by {
        assert(w[k] == (a + b)[k]);
    }
    assert forall|k: int| 0 <= k < b.len() implies s[i + a.len() + k] == #[trigger] b[k] by {
        assert(w[a.len() + k] == (a + b)[a.len() + k]);
    }
}

proof fn lemma_children_markup_cons(t: Tree, rest: Seq<Tree>)
    ensures
        children_markup(seq![t] + rest) == markup_of(t) + children_markup(rest),
    decreases rest.len(),
{
    if rest.len() == 0 {
        assert(seq![t] + rest =~= seq![t]);
        assert(seq![t].drop_last() =~= Seq::<Tree>::empty());
        assert(children_markup(Seq::<Tree>::empty()) =~= Seq::<char>::empty());
        assert(markup_of(t) + Seq::<char>::empty() =~= markup_of(t));
    } else {
        lemma_children_markup_cons(t, rest.drop_last());
        assert((seq![t] + rest).drop_last() =~= seq![t] + rest.drop_last());
        assert((seq![t] + rest).last() == rest.last());
        assert(markup_of(t) + children_markup(rest) =~= markup_of(t) + children_markup(rest.drop_last())
            + markup_of(rest.last()));
    }
}

/// The attributes, each after one space.
pub open spec fn spaced_attrs(ps: Seq<(Seq<char>, Seq<char>)>) -> Seq<char>
    decreases ps.len(),
{
    if ps.len() == 0 {
        Seq::empty()
    } else {
        seq![' '] + attr_markup(ps[0]) + spaced_attrs(ps.drop_first())
    }
}

proof fn lemma_spaced_attrs_push(ps: Seq<(Seq<char>, Seq<char>)>, p: (Seq<char>, Seq<char>))
    ensures
        spaced_attrs(ps.push(p)) == spaced_attrs(ps) + seq![' '] + attr_markup(p),
    decreases ps.len(),
{
    if ps.len() == 0 {
        assert(ps.push(p).drop_first() =~= Seq::<(Seq<char>, Seq<char>)>::empty());
        assert(ps.push(p)[0] == p);
        assert(spaced_attrs(Seq::<(Seq<char>, Seq<char>)>::empty()) =~= Seq::<char>::empty());
        assert(spaced_attrs(ps) =~= Seq::<char>::empty());
        assert(spaced_attrs(ps.push(p)) =~= spaced_attrs(ps) + seq![' '] + attr_markup(p));
    } else {
        lemma_spaced_attrs_push(ps.drop_first(), p);
        assert(ps.push(p).drop_first() =~= ps.drop_first().push(p));
        assert(spaced_attrs(ps.push(p)) =~= spaced_attrs(ps) + seq![' '] + attr_markup(p));
    }
}

proof fn lemma_attrs_markup_spaced(ps: Seq<(Seq<char>, Seq<char>)>)
    requires
        ps.len() > 0,
    ensures
        seq![' '] + attrs_markup(ps) == spaced_attrs(ps),
    decreases ps.len(),
{
    if ps.len() == 1 {
        assert(ps.drop_first() =~= Seq::<(Seq<char>, Seq<char>)>::empty());
        assert(spaced_attrs(Seq::<(Seq<char>, Seq<char>)>::empty()) =~= Seq::<char>::empty());
        assert(attrs_markup(ps) == attr_markup(ps[0]));
        assert(seq![' '] + attrs_markup(ps) =~= spaced_attrs(ps));
    } else {
        lemma_attrs_markup_spaced(ps.drop_last());
        lemma_spaced_attrs_push(ps.drop_last(), ps.last());
        assert(ps.drop_last().push(ps.last()) =~= ps);
        assert(seq![' '] + attrs_markup(ps) =~= seq![' '] + attrs_markup(ps.drop_last()) + seq![' ']
            + attr_markup(ps.last()));
    }
}

proof fn lemma_unescape_plain(v: Seq<char>)
    requires
        forall|k: int| 0 <= k && k + 6 <= v.len() ==> #[trigger] v.subrange(k, k + 6) != quot_entity(),
    ensures
        unescape(v) == v,
    decreases v.len(),
{
    if v.len() > 0 {
        let r = v.subrange(1, v.len() as int);
        assert forall|k: int| 0 <= k && k + 6 <= r.len() implies #[trigger] r.subrange(k, k + 6)
            != quot_entity() by {
            assert(r.subrange(k, k + 6) =~= v.subrange(k + 1, k + 1 + 6));
        }
        lemma_unescape_plain(r);
        if v.len() >= 6 {
            assert(v.subrange(0int, 0int + 6) != quot_entity());
        }
        assert(seq![v[0]] + r =~= v);
    }
}

proof fn lemma_insert_all_unique(acc: Seq<(Seq<char>, Seq<char>)>, ps: Seq<(Seq<char>, Seq<char>)>)
    requires
        keys_unique(acc + ps),
    ensures
        insert_all(acc, ps) == acc + ps,
    decreases ps.len(),
{
    if ps.len() > 0 {
        let both = acc + ps;
        assert(both[acc.len() as int] == ps[0]);
        assert(!exists|i: int| 0 <= i < acc.len() && (#[trigger] acc[i]).0 == ps[0].0) by {
            assert forall|i: int| 0 <= i < acc.len() implies (#[trigger] acc[i]).0 != ps[0].0 by {
                assert(both[i] == acc[i]);
            }
        }
        assert(acc.push(ps[0]) + ps.drop_first() =~= both);
        lemma_insert_all_unique(acc.push(ps[0]), ps.drop_first());
    }
}

proof fn lemma_char_of(s: Seq<char>, i: int, w: Seq<char>, k: int)
    requires
        matches_at(s, i, w),
        0 <= k < w.len(),
    ensures
        s[i + k] == w[k],
{
    assert(s.subrange(i, i + w.len())[k] == w[k]);
}

proof fn lemma_name_letters(s: Seq<char>, i: int, w: Seq<char>)
    requires
        matches_at(s, i, w),
        is_name(w),
    ensures
        forall|q: int| i <= q < i + w.len() ==> letter_char(#[trigger] s[q]),
{
    assert forall|q: int| i <= q < i + w.len() implies letter_char(#[trigger] s[q]) by {
        lemma_char_of(s, i, w, q - i);
    }
}

/// One serialized attribute reads back as itself.
proof fn lemma_attribute_round_trip(s: Seq<char>, i: int, p: (Seq<char>, Seq<char>))
    requires
        is_name(p.0),
        plain_value(p.1),
        matches_at(s, i, attr_markup(p)),
    ensures
        attribute_at(s, i) == Some((p, i + attr_markup(p).len())),
{
    let k = p.0;
    let v = p.1;
    lemma_matches_split(s, i, k + seq!['=', '"'] + v, seq!['"']);
    lemma_matches_split(s, i, k + seq!['=', '"'], v);
    lemma_matches_split(s, i, k, seq!['=', '"']);
    let n = i + k.len();
    let q = n + 1;
    let ve = q + 1 + v.len();
    lemma_char_of(s, n, seq!['=', '"'], 0);
    lemma_char_of(s, n, seq!['=', '"'], 1);
    lemma_char_of(s, ve, seq!['"'], 0);
    lemma_name_letters(s, i, k);
    lemma_letters_end(s, i, n);
    assert(spaces_end(s, n) == n);
    assert(spaces_end(s, n + 1) == q);
    assert forall|j: int| q + 1 <= j < ve implies #[trigger] s[j] != '"' by {
        lemma_char_of(s, q + 1, v, j - q - 1);
    }
    lemma_run_end_exact(s, q + 1, ve, '"');
    assert(s.subrange(i, n) =~= k);
    assert(s.subrange(q + 1, ve) =~= v);
    lemma_unescape_plain(v);
}

/// Serialized attributes, each after a space and followed by `>`, read
/// back as themselves.
proof fn lemma_attributes_rest_round_trip(s: Seq<char>, i: int, ps: Seq<(Seq<char>, Seq<char>)>)
    requires
        forall|k: int| 0 <= k < ps.len() ==> is_name(#[trigger] ps[k].0) && plain_value(ps[k].1),
        matches_at(s, i, spaced_attrs(ps) + seq!['>']),
    ensures
        attributes_rest(s, i) == Some((ps, i + spaced_attrs(ps).len())),
    decreases ps.len(),
{
    lemma_matches_split(s, i, spaced_attrs(ps), seq!['>']);
    let e = i + spaced_attrs(ps).len();
    lemma_char_of(s, e, seq!['>'], 0);
    if ps.len() == 0 {
        assert(spaced_attrs(ps) =~= Seq::<char>::empty());
        assert(spaces_end(s, i) == i);
        assert(letters_end(s, i) == i);
    } else {
        let p = ps[0];
        let rest = ps.drop_first();
        assert(spaced_attrs(ps) + seq!['>'] =~= seq![' '] + (attr_markup(p) + (spaced_attrs(rest)
            + seq!['>'])));
        lemma_matches_split(s, i, seq![' '], attr_markup(p) + (spaced_attrs(rest) + seq!['>']));
        lemma_matches_split(s, i + 1, attr_markup(p), spaced_attrs(rest) + seq!['>']);
        lemma_char_of(s, i, seq![' '], 0);
        assert(attr_markup(p) == p.0 + (seq!['=', '"'] + p.1 + seq!['"'])) by {
            assert(attr_markup(p) =~= p.0 + (seq!['=', '"'] + p.1 + seq!['"']));
        }
        lemma_matches_split(s, i + 1, p.0, seq!['=', '"'] + p.1 + seq!['"']);
        lemma_char_of(s, i + 1, p.0, 0);
        assert(spaces_end(s, i + 1) == i + 1);
        assert(spaces_end(s, i) == i + 1);
        lemma_attribute_round_trip(s, i + 1, p);
        assert forall|k: int| 0 <= k < rest.len() implies is_name(#[trigger] rest[k].0) && plain_value(
            rest[k].1,
        ) by {
            assert(rest[k] == ps[k + 1]);
        }
        lemma_attributes_rest_round_trip(s, i + 1 + attr_markup(p).len(), rest);
        assert(seq![p] + rest =~= ps);
    }
}

proof fn lemma_wf_forest_index(ns: Seq<Tree>, i: int)
    requires
        wf_forest(ns),
        0 <= i < ns.len(),
    ensures
        wf_tree(ns[i]),
    decreases ns.len(),
{
    if i > 0 {
        lemma_wf_forest_index(ns.drop_first(), i - 1);
    }
}

pub open spec fn stops_nodes(s: Seq<char>, e: int) -> bool {
    e == s.len() || (e + 1 < s.len() && s[e] == '<' && s[e + 1] == '/')
}

pub open spec fn open_markup(tag: Seq<char>, attrs: Seq<(Seq<char>, Seq<char>)>) -> Seq<char> {
    seq!['<'] + tag + spaced_attrs(attrs) + seq!['>']
}

pub open spec fn close_markup(tag: Seq<char>) -> Seq<char> {
    seq!['<', '/'] + tag + seq!['>']
}

proof fn lemma_element_markup(t: Tree)
    requires
        t.kind is Element,
    ensures
        markup_of(t) == open_markup(t.kind->tag, t.kind->attrs) + children_markup(t.children)
            + close_markup(t.kind->tag),
{
    let attrs = t.kind->attrs;
    if attrs.len() == 0 {
        assert(spaced_attrs(attrs) =~= Seq::<char>::empty());
    } else {
        lemma_attrs_markup_spaced(attrs);
    }
    assert(markup_of(t) =~= open_markup(t.kind->tag, t.kind->attrs) + children_markup(t.children)
        + close_markup(t.kind->tag));
}

proof fn lemma_open_tag_round_trip(s: Seq<char>, i: int, tag: Seq<char>, attrs: Seq<(Seq<char>, Seq<char>)>)
    requires
        is_name(tag),
        wf_attrs(attrs),
        matches_at(s, i, open_markup(tag, attrs)),
    ensures
        open_tag_at(s, i) == Some((tag, attrs, i + open_markup(tag, attrs).len())),
{
    let n = i + 1 + tag.len();
    assert(open_markup(tag, attrs) == seq!['<'] + (tag + (spaced_attrs(attrs) + seq!['>']))) by {
        assert(open_markup(tag, attrs) =~= seq!['<'] + (tag + (spaced_attrs(attrs) + seq!['>'])));
    }
    lemma_matches_split(s, i, seq!['<'], tag + (spaced_attrs(attrs) + seq!['>']));
    lemma_matches_split(s, i + 1, tag, spaced_attrs(attrs) + seq!['>']);
    lemma_char_of(s, i, seq!['<'], 0);
    lemma_name_letters(s, i + 1, tag);
    lemma_attributes_rest_round_trip(s, n, attrs);
    let e = n + spaced_attrs(attrs).len();
    lemma_matches_split(s, n, spaced_attrs(attrs), seq!['>']);
    lemma_char_of(s, e, seq!['>'], 0);
    if attrs.len() == 0 {
        assert(spaced_attrs(attrs) =~= Seq::<char>::empty());
        lemma_letters_end(s, i + 1, n);
        assert(spaces_end(s, n) == n);
        assert(letters_end(s, n) == n);
        assert(attributes_at(s, n) == Some((Seq::<(Seq<char>, Seq<char>)>::empty(), n)));
    } else {
        let p = attrs[0];
        assert(spaced_attrs(attrs) + seq!['>'] =~= seq![' '] + (attr_markup(p) + (spaced_attrs(
            attrs.drop_first(),
        ) + seq!['>'])));
        lemma_matches_split(s, n, seq![' '], attr_markup(p) + (spaced_attrs(attrs.drop_first()) + seq!['>']));
        lemma_char_of(s, n, seq![' '], 0);
        lemma_letters_end(s, i + 1, n);
        lemma_matches_split(s, n + 1, attr_markup(p), spaced_attrs(attrs.drop_first()) + seq!['>']);
        assert(attr_markup(p) == p.0 + (seq!['=', '"'] + p.1 + seq!['"'])) by {
            assert(attr_markup(p) =~= p.0 + (seq!['=', '"'] + p.1 + seq!['"']));
        }
        lemma_matches_split(s, n + 1, p.0, seq!['=', '"'] + p.1 + seq!['"']);
        lemma_char_of(s, n + 1, p.0, 0);
        assert(spaces_end(s, n + 1) == n + 1);
        assert(spaces_end(s, n) == n + 1);
        lemma_attribute_round_trip(s, n + 1, p);
        assert(attribute_at(s, n + 1) is Some);
    }
    assert(attributes_at(s, spaces_end(s, n)) == Some((attrs, e)));
    assert(s.subrange(i + 1, n) =~= tag);
    lemma_insert_all_unique(Seq::empty(), attrs);
    assert(Seq::<(Seq<char>, Seq<char>)>::empty() + attrs =~= attrs);
}

proof fn lemma_close_tag_round_trip(s: Seq<char>, i: int, tag: Seq<char>)
    requires
        is_name(tag),
        matches_at(s, i, close_markup(tag)),
    ensures
        close_tag_at(s, i) == Some((tag, i + close_markup(tag).len())),
{
    let m = i + 2 + tag.len();
    assert(close_markup(tag) == seq!['<', '/'] + (tag + seq!['>'])) by {
        assert(close_markup(tag) =~= seq!['<', '/'] + (tag + seq!['>']));
    }
    lemma_matches_split(s, i, seq!['<', '/'], tag + seq!['>']);
    lemma_matches_split(s, i + 2, tag, seq!['>']);
    lemma_char_of(s, i, seq!['<', '/'], 0);
    lemma_char_of(s, i, seq!['<', '/'], 1);
    lemma_char_of(s, m, seq!['>'], 0);
    lemma_name_letters(s, i + 2, tag);
    lemma_letters_end(s, i + 2, m);
    assert(s.subrange(i + 2, m) =~= tag);
}

/// A serialized element reads back as itself.
proof fn lemma_element_round_trip(s: Seq<char>, i: int, t: Tree)
    requires
        wf_tree(t),
        t.kind is Element,
        matches_at(s, i, markup_of(t)),
    ensures
        element_at(s, i) == Some((t, i + markup_of(t).len())),
    decreases t, 0int,
{
    let tag = t.kind->tag;
    let attrs = t.kind->attrs;
    let om = open_markup(tag, attrs);
    let cm = children_markup(t.children);
    let clm = close_markup(tag);
    lemma_element_markup(t);
    lemma_matches_split(s, i, om + cm, clm);
    lemma_matches_split(s, i, om, cm);
    let j = i + om.len();
    let k = j + cm.len();
    lemma_open_tag_round_trip(s, i, tag, attrs);
    assert(stops_nodes(s, k)) by {
        assert(clm == seq!['<', '/'] + tag + seq!['>']);
        lemma_char_of(s, k, clm, 0);
        lemma_char_of(s, k, clm, 1);
    }
    lemma_nodes_round_trip(s, j, t.children);
    lemma_close_tag_round_trip(s, k, tag);
    lemma_insert_all_unique(Seq::empty(), attrs);
    assert(Seq::<(Seq<char>, Seq<char>)>::empty() + attrs =~= attrs);
    assert(element_tree(tag, attrs, t.children) == t);
}

/// A serialized forest, followed by the end of the input or by a close
/// tag, reads back as itself.
proof fn lemma_nodes_round_trip(s: Seq<char>, i: int, ns: Seq<Tree>)
    requires
        wf_forest(ns),
        matches_at(s, i, children_markup(ns)),
        stops_nodes(s, i + children_markup(ns).len()),
    ensures
        nodes_at(s, i) == (ns, i + children_markup(ns).len()),
    decreases ns, 1int,
{
    if ns.len() == 0 {
        assert(children_markup(ns) =~= Seq::<char>::empty());
        if i < s.len() {
            assert(letters_end(s, i + 1) == i + 1);
            assert(open_tag_at(s, i) is None);
        }
    } else {
        let t = ns[0];
        let rest = ns.drop_first();
        assert(seq![t] + rest =~= ns);
        lemma_children_markup_cons(t, rest);
        lemma_matches_split(s, i, markup_of(t), children_markup(rest));
        let j = i + markup_of(t).len();
        lemma_wf_forest_index(ns, 0);
        match t.kind {
            NodeKind::Element { tag, attrs } => {
                lemma_element_round_trip(s, i, t);
                lemma_element_markup(t);
                assert(markup_of(t)[0] == '<');
                lemma_char_of(s, i, markup_of(t), 0);
                lemma_nodes_round_trip(s, j, rest);
            },
            NodeKind::Text { data } => {
                assert(markup_of(t) == data);
                lemma_char_of(s, i, data, 0);
                assert forall|k: int| i <= k < j implies #[trigger] s[k] != '<' by {
                    lemma_char_of(s, i, data, k - i);
                }
                if rest.len() > 0 {
                    let r0 = rest[0];
                    assert(!is_text(r0));
                    lemma_wf_forest_index(ns, 1);
                    lemma_children_markup_cons(r0, rest.drop_first());
                    assert(seq![r0] + rest.drop_first() =~= rest);
                    lemma_matches_split(s, j, markup_of(r0), children_markup(rest.drop_first()));
                    lemma_element_markup(r0);
                    assert(markup_of(r0)[0] == '<');
                    lemma_char_of(s, j, markup_of(r0), 0);
                }
                lemma_run_end_exact(s, i, j, '<');
                assert(s.subrange(i, j) =~= data);
                assert(t.children =~= Seq::<Tree>::empty());
                assert(text_tree(s.subrange(i, j)) == t);
                lemma_nodes_round_trip(s, j, rest);
            },
        }
    }
}

/// `<a attrs>children</b>`.
pub open spec fn mismatched(
    a: Seq<char>,
    attrs: Seq<(Seq<char>, Seq<char>)>,
    ns: Seq<Tree>,
    b: Seq<char>,
) -> Seq<char> {
    open_markup(a, attrs) + children_markup(ns) + close_markup(b)
}

/// An element whose close tag names another element than its open tag is
/// refused, and so is the whole input: no partial forest comes out.
pub proof fn lemma_mismatch_fails(
    a: Seq<char>,
    attrs: Seq<(Seq<char>, Seq<char>)>,
    ns: Seq<Tree>,
    b: Seq<char>,
)
    requires
        is_name(a),
        is_name(b),
        a != b,
        wf_attrs(attrs),
        wf_forest(ns),
    ensures
        element_at(mismatched(a, attrs, ns, b), 0) is None,
        parse_forest(mismatched(a, attrs, ns, b)) is None,
{
    let s = mismatched(a, attrs, ns, b);
    let om = open_markup(a, attrs);
    let cm = children_markup(ns);
    let j = om.len() as int;
    let k = j + cm.len();
    assert(s.subrange(0, s.len() as int) =~= s);
    lemma_matches_split(s, 0, om + cm, close_markup(b));
    lemma_matches_split(s, 0, om, cm);
    assert(element_at(s, 0) is None) by {
        lemma_open_tag_round_trip(s, 0, a, attrs);
        assert(close_markup(b) == seq!['<', '/'] + b + seq!['>']);
        lemma_char_of(s, k, close_markup(b), 0);
        lemma_char_of(s, k, close_markup(b), 1);
        lemma_nodes_round_trip(s, j, ns);
        lemma_close_tag_round_trip(s, k, b);
    }
    assert(nodes_at(s, 0) == (Seq::<Tree>::empty(), 0int)) by {
        lemma_char_of(s, 0, om, 0);
    }
}

/// Serializing a well-formed forest and parsing the markup gives the same
/// forest back: names, attributes in order, and text.
pub proof fn lemma_markup_round_trip(ns: Seq<Tree>)
    requires
        wf_forest(ns),
    ensures
        parse_forest(children_markup(ns)) == Some(ns),
{
    let s = children_markup(ns);
    assert(s.subrange(0, s.len() as int) =~= s);
    lemma_nodes_round_trip(s, 0, ns);
}

} // verus!
