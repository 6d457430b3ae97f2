//! The stylesheet grammar: an ordered list of rules, each a list of
//! selectors and a list of declarations.

use vstd::prelude::*;
use crate::html::{char_at, letters_end, letters_end_exec, spaces_end, spaces_end_exec};
use crate::dom::{attr_lookup, Node, NodeKind, NodeType, Tree};
use crate::strs::{str_eq, string_of_range};

verus! {

/// Rules in source order; a later rule overrides an earlier one.
#[derive(Debug, PartialEq, Eq)]
pub struct Stylesheet {
    pub rules: Vec<Rule>,
}

/// Declarations that apply to every node that one of the selectors picks.
#[derive(Debug, PartialEq, Eq)]
pub struct Rule {
    pub selectors: Vec<Selector>,
    pub declarations: Vec<Declaration>,
}

pub type Selector = SimpleSelector;

#[derive(Debug, PartialEq, Eq)]
pub enum SimpleSelector {
    /// `*`: any element.
    UniversalSelector,
    /// `tag`: elements of that name.
    TypeSelector { tag_name: String },
    /// `tag[attribute=value]` or `tag[attribute~=value]`.
    AttributeSelector { tag_name: String, op: AttributeSelectorOp, attribute: String, value: String },
    /// `.name`: elements whose `class` attribute is exactly `name`.
    ClassSelector { class_name: String },
}

#[derive(Debug, PartialEq, Eq, Clone, Copy)]
pub enum AttributeSelectorOp {
    /// `=`: the attribute's value equals the selector's.
    Eq,
    /// `~=`: one of the attribute's whitespace-separated words equals the
    /// selector's value.
    Contain,
}

/// `name: value`.
#[derive(Debug, PartialEq, Eq)]
pub struct Declaration {
    pub name: String,
    pub value: CSSValue,
}

/// A keyword such as `flex`, or a length such as `10em`.
#[derive(Debug, PartialEq, Eq)]
pub enum CSSValue {
    Keyword(String),
    Length((usize, Unit)),
}

#[derive(Debug, PartialEq, Eq, Clone, Copy)]
pub enum Unit {
    Em,
}

/// Why the stylesheet grammar refused its input.
#[derive(Debug, PartialEq, Eq)]
pub enum CSSParseError {
    /// The input is not well-formed at the given character offset.
    InvalidResourceError(usize),
}

/// The view of a selector.
pub enum SelectorModel {
    Universal,
    Type(Seq<char>),
    Attribute(Seq<char>, AttributeSelectorOp, Seq<char>, Seq<char>),
    Class(Seq<char>),
}

/// The view of a declaration value; a length counts ems.
pub enum ValueModel {
    Keyword(Seq<char>),
    Length(nat),
}

pub struct RuleModel {
    pub selectors: Seq<SelectorModel>,
    pub declarations: Seq<(Seq<char>, ValueModel)>,
}

impl SimpleSelector {
    pub open spec fn view(&self) -> SelectorModel {
        match self {
            SimpleSelector::UniversalSelector => SelectorModel::Universal,
            SimpleSelector::TypeSelector { tag_name } => SelectorModel::Type(tag_name@),
            SimpleSelector::AttributeSelector { tag_name, op, attribute, value } => SelectorModel::Attribute(
                tag_name@,
                *op,
                attribute@,
                value@,
            ),
            SimpleSelector::ClassSelector { class_name } => SelectorModel::Class(class_name@),
        }
    }
}

impl CSSValue {
    pub open spec fn view(&self) -> ValueModel {
        match self {
            CSSValue::Keyword(k) => ValueModel::Keyword(k@),
            CSSValue::Length((n, _)) => ValueModel::Length(*n as nat),
        }
    }
}

impl Clone for CSSValue {
    fn clone(&self) -> (r: CSSValue)
        ensures
            r == *self,
    {
        match self {
            CSSValue::Keyword(k) => CSSValue::Keyword(k.clone()),
            CSSValue::Length((n, u)) => CSSValue::Length((*n, *u)),
        }
    }
}

impl Declaration {
    pub open spec fn view(&self) -> (Seq<char>, ValueModel) {
        (self.name@, self.value@)
    }
}

pub open spec fn selectors_view(v: Seq<SimpleSelector>) -> Seq<SelectorModel> {
    v.map_values(|x: SimpleSelector| x@)
}

pub open spec fn declarations_view(v: Seq<Declaration>) -> Seq<(Seq<char>, ValueModel)> {
    v.map_values(|x: Declaration| x@)
}

impl Rule {
    pub open spec fn view(&self) -> RuleModel {
        RuleModel {
            selectors: selectors_view(self.selectors@),
            declarations: declarations_view(self.declarations@),
        }
    }
}

pub open spec fn rules_view(v: Seq<Rule>) -> Seq<RuleModel> {
    v.map_values(|x: Rule| x@)
}

impl Stylesheet {
    pub open spec fn view(&self) -> Seq<RuleModel> {
        rules_view(self.rules@)
    }

    pub fn new(rules: Vec<Rule>) -> (r: Stylesheet)
        ensures
            r.rules == rules,
    {
        Stylesheet { rules }
    }
}

/// The outcome of one grammar production at a position: what it read and
/// where it ended, or a failure, which is committed when the production had
/// consumed input before it failed.
pub enum Parsed<T> {
    Done(T, int),
    Fail(bool),
}

pub open spec fn is_digit(c: char) -> bool {
    '0' <= c && c <= '9'
}

pub open spec fn digits_end(s: Seq<char>, i: int) -> int
    decreases s.len() - i,
{
    if 0 <= i < s.len() && is_digit(s[i]) {
        digits_end(s, i + 1)
    } else {
        i
    }
}

/// The number that a run of decimal digits spells.
pub open spec fn digits_value(ds: Seq<char>) -> nat
    decreases ds.len(),
{
    if ds.len() == 0 {
        0
    } else {
        digits_value(ds.drop_last()) * 10 + (ds.last() as nat - '0' as nat) as nat
    }
}

/// A keyword (letters) or a length (digits and `em`) at `i`; a length
/// beyond `usize::MAX` is refused.
#[verifier::opaque]
pub open spec fn value_at(s: Seq<char>, i: int) -> Parsed<ValueModel> {
    let n = letters_end(s, i);
    let d = digits_end(s, i);
    if n > i {
        Parsed::Done(ValueModel::Keyword(s.subrange(i, n)), n)
    } else if d == i {
        Parsed::Fail(false)
    } else if char_at(s, d, 'e') && char_at(s, d + 1, 'm') && digits_value(s.subrange(i, d))
        <= usize::MAX {
        Parsed::Done(ValueModel::Length(digits_value(s.subrange(i, d))), d + 2)
    } else {
        Parsed::Fail(true)
    }
}

/// `name ws* : ws* value` at `i`.
#[verifier::opaque]
pub open spec fn declaration_at(s: Seq<char>, i: int) -> Parsed<(Seq<char>, ValueModel)> {
    let n = letters_end(s, i);
    let j = spaces_end(s, n);
    let k = spaces_end(s, j + 1);
    if n == i {
        Parsed::Fail(false)
    } else if !char_at(s, j, ':') {
        Parsed::Fail(true)
    } else {
        match value_at(s, k) {
            Parsed::Done(v, m) => Parsed::Done((s.subrange(i, n), v), m),
            Parsed::Fail(_) => Parsed::Fail(true),
        }
    }
}

/// The declarations after a first one: each after a `;`, and a `;` may end
/// the list.
pub open spec fn declarations_rest(s: Seq<char>, p: int) -> Parsed<Seq<(Seq<char>, ValueModel)>>
    decreases s.len() - p,
{
    if !char_at(s, p, ';') {
        Parsed::Done(Seq::empty(), p)
    } else {
        let q = spaces_end(s, p + 1);
        match declaration_at(s, q) {
            Parsed::Fail(c) => if c {
                Parsed::Fail(true)
            } else {
                Parsed::Done(Seq::empty(), q)
            },
            Parsed::Done(d, j) => if p < j <= spaces_end(s, j) <= s.len() {
                match declarations_rest(s, spaces_end(s, j)) {
                    Parsed::Done(ds, e) => Parsed::Done(seq![d] + ds, e),
                    Parsed::Fail(c) => Parsed::Fail(c),
                }
            } else {
                Parsed::Fail(true)
            },
        }
    }
}

pub open spec fn declarations_at(s: Seq<char>, i: int) -> Parsed<Seq<(Seq<char>, ValueModel)>> {
    match declaration_at(s, i) {
        Parsed::Fail(c) => if c {
            Parsed::Fail(true)
        } else {
            Parsed::Done(Seq::empty(), i)
        },
        Parsed::Done(d, j) => match declarations_rest(s, spaces_end(s, j)) {
            Parsed::Done(ds, e) => Parsed::Done(seq![d] + ds, e),
            Parsed::Fail(c) => Parsed::Fail(c),
        },
    }
}

/// One selector at `i`: `*`, `.name`, `tag` or `tag[attr=value]` /
/// `tag[attr~=value]`.
#[verifier::opaque]
pub open spec fn selector_at(s: Seq<char>, i: int) -> Parsed<SelectorModel> {
    let n = letters_end(s, i);
    let k = spaces_end(s, n);
    let a = spaces_end(s, k + 1);
    let b = letters_end(s, a);
    let c = if char_at(s, b, '=') {
        b + 1
    } else {
        b + 2
    };
    let op = if char_at(s, b, '=') {
        AttributeSelectorOp::Eq
    } else {
        AttributeSelectorOp::Contain
    };
    let d = letters_end(s, c);
    if char_at(s, i, '*') {
        Parsed::Done(SelectorModel::Universal, i + 1)
    } else if char_at(s, i, '.') {
        let m = letters_end(s, i + 1);
        if m > i + 1 {
            Parsed::Done(SelectorModel::Class(s.subrange(i + 1, m)), m)
        } else {
            Parsed::Fail(true)
        }
    } else if n == i {
        Parsed::Fail(false)
    } else if !char_at(s, k, '[') {
        Parsed::Done(SelectorModel::Type(s.subrange(i, n)), k)
    } else if b == a || !(char_at(s, b, '=') || (char_at(s, b, '~') && char_at(s, b + 1, '=')))
        || d == c || !char_at(s, d, ']') {
        Parsed::Fail(true)
    } else {
        Parsed::Done(
            SelectorModel::Attribute(s.subrange(i, n), op, s.subrange(a, b), s.subrange(c, d)),
            d + 1,
        )
    }
}

/// The selectors after a first one, each after a `,`.
pub open spec fn selectors_rest(s: Seq<char>, p: int) -> Parsed<Seq<SelectorModel>>
    decreases s.len() - p,
{
    if !char_at(s, p, ',') {
        Parsed::Done(Seq::empty(), p)
    } else {
        match selector_at(s, spaces_end(s, p + 1)) {
            Parsed::Fail(_) => Parsed::Fail(true),
            Parsed::Done(x, j) => if p < j <= spaces_end(s, j) <= s.len() {
                match selectors_rest(s, spaces_end(s, j)) {
                    Parsed::Done(xs, e) => Parsed::Done(seq![x] + xs, e),
                    Parsed::Fail(c) => Parsed::Fail(c),
                }
            } else {
                Parsed::Fail(true)
            },
        }
    }
}

/// A comma-separated list of selectors at `i`, possibly empty.
pub open spec fn selectors_at(s: Seq<char>, i: int) -> Parsed<Seq<SelectorModel>> {
    match selector_at(s, i) {
        Parsed::Fail(c) => if c {
            Parsed::Fail(true)
        } else {
            Parsed::Done(Seq::empty(), i)
        },
        Parsed::Done(x, j) => match selectors_rest(s, spaces_end(s, j)) {
            Parsed::Done(xs, e) => Parsed::Done(seq![x] + xs, e),
            Parsed::Fail(c) => Parsed::Fail(c),
        },
    }
}

/// `selectors { declarations }` at `i`.
#[verifier::opaque]
pub open spec fn rule_at(s: Seq<char>, i: int) -> Parsed<RuleModel> {
    match selectors_at(s, i) {
        Parsed::Fail(c) => Parsed::Fail(c),
        Parsed::Done(sels, j) => {
            let j2 = spaces_end(s, j);
            if !char_at(s, j2, '{') {
                Parsed::Fail(j2 > i)
            } else {
                match declarations_at(s, spaces_end(s, j2 + 1)) {
                    Parsed::Fail(_) => Parsed::Fail(true),
                    Parsed::Done(ds, m) => {
                        let m2 = spaces_end(s, m);
                        if char_at(s, m2, '}') {
                            Parsed::Done(RuleModel { selectors: sels, declarations: ds }, m2 + 1)
                        } else {
                            Parsed::Fail(true)
                        }
                    },
                }
            }
        },
    }
}

/// The rules from `p` on, each followed by whitespace; the list ends at the
/// first place where no rule starts.
pub open spec fn rules_from(s: Seq<char>, p: int) -> Parsed<Seq<RuleModel>>
    decreases s.len() - p,
{
    match rule_at(s, p) {
        Parsed::Fail(c) => if c {
            Parsed::Fail(true)
        } else {
            Parsed::Done(Seq::empty(), p)
        },
        Parsed::Done(r, j) => if p < j <= spaces_end(s, j) <= s.len() {
            match rules_from(s, spaces_end(s, j)) {
                Parsed::Done(rs, e) => Parsed::Done(seq![r] + rs, e),
                Parsed::Fail(c) => Parsed::Fail(c),
            }
        } else {
            Parsed::Fail(true)
        },
    }
}

/// The rules that `s` spells, or `None` where the grammar fails.
pub open spec fn parse_rules(s: Seq<char>) -> Option<Seq<RuleModel>> {
    match rules_from(s, spaces_end(s, 0)) {
        Parsed::Done(rs, _) => Some(rs),
        Parsed::Fail(_) => None,
    }
}

pub open spec fn prepend<T>(acc: Seq<T>, r: Parsed<Seq<T>>) -> Parsed<Seq<T>> {
    match r {
        Parsed::Done(xs, e) => Parsed::Done(acc + xs, e),
        Parsed::Fail(c) => Parsed::Fail(c),
    }
}

proof fn lemma_digits_value_prefix(ds: Seq<char>, k: int)
    requires
        0 <= k <= ds.len(),
    ensures
        digits_value(ds.subrange(0, k)) <= digits_value(ds),
    decreases ds.len(),
{
    if k < ds.len() {
        lemma_digits_value_prefix(ds.drop_last(), k);
        assert(ds.drop_last().subrange(0, k) =~= ds.subrange(0, k));
    } else {
        assert(ds.subrange(0, k) =~= ds);
    }
}

fn digits_end_exec(s: &Vec<char>, i: usize) -> (r: usize)
    requires
        i <= s@.len(),
    ensures
        r == digits_end(s@, i as int),
        i <= r <= s@.len(),
        forall|k: int| i <= k < r ==> is_digit(#[trigger] s@[k]),
{
    let mut j = i;
    while j < s.len() && '0' <= s[j] && s[j] <= '9'
        invariant
            i <= j <= s@.len(),
            digits_end(s@, i as int) == digits_end(s@, j as int),
            forall|k: int| i <= k < j ==> is_digit(#[trigger] s@[k]),
        decreases s@.len() - j,
    {
        j = j + 1;
    }
    j
}

/// The number that the digits from `from` up to `to` spell, unless it
/// exceeds `usize::MAX`.
fn number_of(s: &Vec<char>, from: usize, to: usize) -> (r: Option<usize>)
    requires
        from <= to <= s@.len(),
        forall|k: int| from <= k < to ==> is_digit(#[trigger] s@[k]),
    ensures
        r matches Some(n) ==> n == digits_value(s@.subrange(from as int, to as int)),
        r is None <==> digits_value(s@.subrange(from as int, to as int)) > usize::MAX,
{
    let mut n: usize = 0;
    let mut p = from;
    while p < to
        invariant
            from <= p <= to <= s@.len(),
            forall|k: int| from <= k < to ==> is_digit(#[trigger] s@[k]),
            n == digits_value(s@.subrange(from as int, p as int)),
        decreases to - p,
    {
        let d = (s[p] as u32 - '0' as u32) as usize;
        proof {
            let ds = s@.subrange(from as int, p as int + 1);
            assert(ds.drop_last() =~= s@.subrange(from as int, p as int));
            lemma_digits_value_prefix(s@.subrange(from as int, to as int), p - from + 1);
            assert(s@.subrange(from as int, to as int).subrange(0, p - from + 1) =~= ds);
        }
        if n > (usize::MAX - d) / 10 {
            assert(n * 10 + d > usize::MAX) by (nonlinear_arith)
                requires
                    n > (usize::MAX - d) / 10,
                    d <= 9,
            ;
            return None;
        }
        assert(n * 10 + d <= usize::MAX) by (nonlinear_arith)
            requires
                n <= (usize::MAX - d) / 10,
                d <= 9,
        ;
        n = n * 10 + d;
        p = p + 1;
    }
    Some(n)
}

/// A keyword or a length at `i`.
pub fn css_value(s: &Vec<char>, i: usize) -> (r: Result<(CSSValue, usize), bool>)
    requires
        i <= s@.len(),
    ensures
        match r {
            Ok((v, j)) => value_at(s@, i as int) == Parsed::Done(v@, j as int) && j <= s@.len(),
            Err(c) => value_at(s@, i as int) == Parsed::<ValueModel>::Fail(c),
        },
{
    reveal(value_at);
    let n = letters_end_exec(s, i);
    if n > i {
        return Ok((CSSValue::Keyword(string_of_range(s, i, n)), n));
    }
    let d = digits_end_exec(s, i);
    if d == i {
        return Err(false);
    }
    if !(d < s.len() && s[d] == 'e' && d + 1 < s.len() && s[d + 1] == 'm') {
        return Err(true);
    }
    match number_of(s, i, d) {
        None => Err(true),
        Some(v) => Ok((CSSValue::Length((v, Unit::Em)), d + 2)),
    }
}

/// `name: value` at `i`.
pub fn declaration(s: &Vec<char>, i: usize) -> (r: Result<(Declaration, usize), bool>)
    requires
        i <= s@.len(),
    ensures
        match r {
            Ok((x, j)) => declaration_at(s@, i as int) == Parsed::Done(x@, j as int) && j <= s@.len(),
            Err(c) => declaration_at(s@, i as int) == Parsed::<(Seq<char>, ValueModel)>::Fail(c),
        },
{
    reveal(declaration_at);
    let n = letters_end_exec(s, i);
    if n == i {
        return Err(false);
    }
    let j = spaces_end_exec(s, n);
    if !(j < s.len() && s[j] == ':') {
        return Err(true);
    }
    let k = spaces_end_exec(s, j + 1);
    match css_value(s, k) {
        Ok((v, m)) => Ok((Declaration { name: string_of_range(s, i, n), value: v }, m)),
        Err(_) => Err(true),
    }
}

/// The `;`-separated declarations at `i`.
pub fn declarations(s: &Vec<char>, i: usize) -> (r: Result<(Vec<Declaration>, usize), bool>)
    requires
        i <= s@.len(),
    ensures
        match r {
            Ok((x, j)) => declarations_at(s@, i as int) == Parsed::Done(declarations_view(x@), j as int)
                && j <= s@.len(),
            Err(c) => declarations_at(s@, i as int) == Parsed::<Seq<(Seq<char>, ValueModel)>>::Fail(c),
        },
{
    let mut acc: Vec<Declaration> = Vec::new();
    let mut p: usize = i;
    match declaration(s, i) {
        Err(c) => {
            if c {
                return Err(true);
            }
            assert(declarations_view(acc@) =~= Seq::<(Seq<char>, ValueModel)>::empty());
            return Ok((acc, i));
        },
        Ok((d, j)) => {
            acc.push(d);
            p = spaces_end_exec(s, j);
        },
    }
    assert(declarations_view(acc@) =~= seq![acc@[0]@]);
    loop
        invariant
            p <= s@.len(),
            declarations_at(s@, i as int) == prepend(declarations_view(acc@), declarations_rest(s@, p as int)),
        decreases s@.len() - p,
    {
        let ghost before = acc@;
        if !(p < s.len() && s[p] == ';') {
            assert(declarations_view(acc@) + Seq::<(Seq<char>, ValueModel)>::empty() =~= declarations_view(acc@));
            return Ok((acc, p));
        }
        let q = spaces_end_exec(s, p + 1);
        match declaration(s, q) {
            Err(c) => {
                if c {
                    return Err(true);
                }
                assert(declarations_view(acc@) + Seq::<(Seq<char>, ValueModel)>::empty() =~= declarations_view(acc@));
                return Ok((acc, q));
            },
            Ok((d, j)) => {
                let j2 = spaces_end_exec(s, j);
                if !(p < j) {
                    return Err(true);
                }
                let ghost dv = d@;
                acc.push(d);
                proof {
                    assert(declarations_view(acc@) =~= declarations_view(before).push(dv));
                    match declarations_rest(s@, j2 as int) {
                        Parsed::Done(ds, e) => {
                            assert(declarations_view(acc@) + ds =~= declarations_view(before) + (seq![dv] + ds));
                        },
                        Parsed::Fail(_) => {},
                    }
                }
                p = j2;
            },
        }
    }
}

/// One selector at `i`.
pub fn selector(s: &Vec<char>, i: usize) -> (r: Result<(SimpleSelector, usize), bool>)
    requires
        i <= s@.len(),
    ensures
        match r {
            Ok((x, j)) => selector_at(s@, i as int) == Parsed::Done(x@, j as int) && i < j <= s@.len(),
            Err(c) => selector_at(s@, i as int) == Parsed::<SelectorModel>::Fail(c),
        },
{
    reveal(selector_at);
    if i < s.len() && s[i] == '*' {
        return Ok((SimpleSelector::UniversalSelector, i + 1));
    }
    if i < s.len() && s[i] == '.' {
        let m = letters_end_exec(s, i + 1);
        if m > i + 1 {
            return Ok((SimpleSelector::ClassSelector { class_name: string_of_range(s, i + 1, m) }, m));
        }
        return Err(true);
    }
    let n = letters_end_exec(s, i);
    if n == i {
        return Err(false);
    }
    let k = spaces_end_exec(s, n);
    if !(k < s.len() && s[k] == '[') {
        return Ok((SimpleSelector::TypeSelector { tag_name: string_of_range(s, i, n) }, k));
    }
    let a = spaces_end_exec(s, k + 1);
    let b = letters_end_exec(s, a);
    if b == a {
        return Err(true);
    }
    let op;
    let c;
    if b < s.len() && s[b] == '=' {
        op = AttributeSelectorOp::Eq;
        c = b + 1;
    } else if b < s.len() && s[b] == '~' && b + 1 < s.len() && s[b + 1] == '=' {
        op = AttributeSelectorOp::Contain;
        c = b + 2;
    } else {
        return Err(true);
    }
    let d = letters_end_exec(s, c);
    if d == c || !(d < s.len() && s[d] == ']') {
        return Err(true);
    }
    Ok((
        SimpleSelector::AttributeSelector {
            tag_name: string_of_range(s, i, n),
            op,
            attribute: string_of_range(s, a, b),
            value: string_of_range(s, c, d),
        },
        d + 1,
    ))
}

/// The `,`-separated selectors at `i`.
pub fn selectors(s: &Vec<char>, i: usize) -> (r: Result<(Vec<Selector>, usize), bool>)
    requires
        i <= s@.len(),
    ensures
        match r {
            Ok((x, j)) => selectors_at(s@, i as int) == Parsed::Done(selectors_view(x@), j as int) && i
                <= j <= s@.len(),
            Err(c) => selectors_at(s@, i as int) == Parsed::<Seq<SelectorModel>>::Fail(c),
        },
{
    let mut acc: Vec<Selector> = Vec::new();
    let mut p: usize = i;
    match selector(s, i) {
        Err(c) => {
            if c {
                return Err(true);
            }
            assert(selectors_view(acc@) =~= Seq::<SelectorModel>::empty());
            return Ok((acc, i));
        },
        Ok((x, j)) => {
            acc.push(x);
            p = spaces_end_exec(s, j);
        },
    }
    assert(selectors_view(acc@) =~= seq![acc@[0]@]);
    loop
        invariant
            i <= p <= s@.len(),
            selectors_at(s@, i as int) == prepend(selectors_view(acc@), selectors_rest(s@, p as int)),
        decreases s@.len() - p,
    {
        let ghost before = acc@;
        if !(p < s.len() && s[p] == ',') {
            assert(selectors_view(acc@) + Seq::<SelectorModel>::empty() =~= selectors_view(acc@));
            return Ok((acc, p));
        }
        let q = spaces_end_exec(s, p + 1);
        match selector(s, q) {
            Err(_) => {
                return Err(true);
            },
            Ok((x, j)) => {
                let j2 = spaces_end_exec(s, j);
                let ghost xv = x@;
                acc.push(x);
                proof {
                    assert(selectors_view(acc@) =~= selectors_view(before).push(xv));
                    match selectors_rest(s@, j2 as int) {
                        Parsed::Done(xs, e) => {
                            assert(selectors_view(acc@) + xs =~= selectors_view(before) + (seq![xv] + xs));
                        },
                        Parsed::Fail(_) => {},
                    }
                }
                p = j2;
            },
        }
    }
}

/// `selectors { declarations }` at `i`.
pub fn rule(s: &Vec<char>, i: usize) -> (r: Result<(Rule, usize), bool>)
    requires
        i <= s@.len(),
    ensures
        match r {
            Ok((x, j)) => rule_at(s@, i as int) == Parsed::Done(x@, j as int) && j <= s@.len(),
            Err(c) => rule_at(s@, i as int) == Parsed::<RuleModel>::Fail(c),
        },
{
    reveal(rule_at);
    match selectors(s, i) {
        Err(c) => Err(c),
        Ok((sels, j)) => {
            let j2 = spaces_end_exec(s, j);
            if !(j2 < s.len() && s[j2] == '{') {
                return Err(j2 > i);
            }
            let k = spaces_end_exec(s, j2 + 1);
            match declarations(s, k) {
                Err(_) => Err(true),
                Ok((ds, m)) => {
                    let m2 = spaces_end_exec(s, m);
                    if m2 < s.len() && s[m2] == '}' {
                        Ok((Rule { selectors: sels, declarations: ds }, m2 + 1))
                    } else {
                        Err(true)
                    }
                },
            }
        },
    }
}

/// The end of the run of whitespace at `i`.
pub fn whitespaces(s: &Vec<char>, i: usize) -> (r: usize)
    requires
        i <= s@.len(),
    ensures
        r == spaces_end(s@, i as int),
        i <= r <= s@.len(),
{
    spaces_end_exec(s, i)
}

/// Parses stylesheet text into its rules, in source order.
pub fn parse(raw: String) -> (r: Result<Stylesheet, CSSParseError>)
    ensures
        r matches Ok(sheet) ==> parse_rules(raw@) == Some(sheet@),
        r is Err <==> parse_rules(raw@) is None,
{
    let s = crate::strs::to_chars(raw.as_str());
    assert(s@ == raw@);
    let mut acc: Vec<Rule> = Vec::new();
    let mut p: usize = spaces_end_exec(&s, 0);
    assert(prepend(rules_view(acc@), rules_from(s@, p as int)) =~= rules_from(s@, p as int)) by {
        match rules_from(s@, p as int) {
            Parsed::Done(xs, e) => {
                assert(rules_view(acc@) + xs =~= xs);
            },
            Parsed::Fail(_) => {},
        }
    }
    loop
        invariant
            p <= s@.len(),
            s@ == raw@,
            rules_from(s@, spaces_end(s@, 0)) == prepend(rules_view(acc@), rules_from(s@, p as int)),
        decreases s@.len() - p,
    {
        let ghost before = acc@;
        match rule(&s, p) {
            Err(c) => {
                if c {
                    return Err(CSSParseError::InvalidResourceError(p));
                }
                assert(rules_view(acc@) + Seq::<RuleModel>::empty() =~= rules_view(acc@));
                return Ok(Stylesheet::new(acc));
            },
            Ok((x, j)) => {
                let j2 = spaces_end_exec(&s, j);
                if !(p < j) {
                    return Err(CSSParseError::InvalidResourceError(p));
                }
                let ghost xv = x@;
                acc.push(x);
                proof {
                    assert(rules_view(acc@) =~= rules_view(before).push(xv));
                    match rules_from(s@, j2 as int) {
                        Parsed::Done(xs, e) => {
                            assert(rules_view(acc@) + xs =~= rules_view(before) + (seq![xv] + xs));
                        },
                        Parsed::Fail(_) => {},
                    }
                }
                p = j2;
            },
        }
    }
}

/// The separators of `split_ascii_whitespace`: space, tab, line feed, form
/// feed and carriage return.
pub open spec fn is_ascii_ws(c: char) -> bool {
    c == ' ' || c == '\t' || c == '\n' || c == '\x0C' || c == '\r'
}

pub open spec fn skip_ascii_ws(v: Seq<char>, i: int) -> int
    decreases v.len() - i,
{
    if 0 <= i < v.len() && is_ascii_ws(v[i]) {
        skip_ascii_ws(v, i + 1)
    } else {
        i
    }
}

pub open spec fn word_end(v: Seq<char>, i: int) -> int
    decreases v.len() - i,
{
    if 0 <= i < v.len() && !is_ascii_ws(v[i]) {
        word_end(v, i + 1)
    } else {
        i
    }
}

/// Whether `w` is one of the whitespace-separated words of `v` from `i` on.
pub open spec fn has_word_from(v: Seq<char>, w: Seq<char>, i: int) -> bool
    decreases v.len() - i,
{
    let a = skip_ascii_ws(v, i);
    let b = word_end(v, a);
    if 0 <= i <= a < b <= v.len() {
        v.subrange(a, b) == w || has_word_from(v, w, b)
    } else {
        false
    }
}

pub open spec fn class_name() -> Seq<char> {
    seq!['c', 'l', 'a', 's', 's']
}

/// Whether the selector picks the node: every selector but the universal
/// one asks for an element of a given name or class.
pub open spec fn selector_matches(sel: SelectorModel, t: Tree) -> bool {
    match t.kind {
        NodeKind::Text { .. } => false,
        NodeKind::Element { tag, attrs } => match sel {
            SelectorModel::Universal => true,
            SelectorModel::Type(name) => tag == name,
            SelectorModel::Attribute(name, op, attribute, value) => tag == name && match op {
                AttributeSelectorOp::Eq => attr_lookup(attrs, attribute) == Some(value),
                AttributeSelectorOp::Contain => match attr_lookup(attrs, attribute) {
                    Some(v) => has_word_from(v, value, 0),
                    None => false,
                },
            },
            SelectorModel::Class(name) => attr_lookup(attrs, class_name()) == Some(name),
        },
    }
}

/// Whether any of the rule's selectors picks the node.
pub open spec fn rule_matches(r: RuleModel, t: Tree) -> bool {
    exists|i: int| 0 <= i < r.selectors.len() && selector_matches(#[trigger] r.selectors[i], t)
}

fn skip_ascii_ws_exec(v: &Vec<char>, i: usize) -> (r: usize)
    requires
        i <= v@.len(),
    ensures
        r == skip_ascii_ws(v@, i as int),
        i <= r <= v@.len(),
{
    let mut j: usize = i;
    while j < v.len() && (v[j] == ' ' || v[j] == '\t' || v[j] == '\n' || v[j] == '\x0C' || v[j] == '\r')
        invariant
            i <= j <= v@.len(),
            skip_ascii_ws(v@, i as int) == skip_ascii_ws(v@, j as int),
        decreases v@.len() - j,
    {
        j = j + 1;
    }
    j
}

fn word_end_exec(v: &Vec<char>, i: usize) -> (r: usize)
    requires
        i <= v@.len(),
    ensures
        r == word_end(v@, i as int),
        i <= r <= v@.len(),
{
    let mut j: usize = i;
    while j < v.len() && !(v[j] == ' ' || v[j] == '\t' || v[j] == '\n' || v[j] == '\x0C' || v[j]
        == '\r')
        invariant
            i <= j <= v@.len(),
            word_end(v@, i as int) == word_end(v@, j as int),
        decreases v@.len() - j,
    {
        j = j + 1;
    }
    j
}

/// Whether `word` is one of the whitespace-separated words of `text`.
fn has_word(text: &String, word: &String) -> (r: bool)
    ensures
        r == has_word_from(text@, word@, 0),
{
    let v = crate::strs::to_chars(text.as_str());
    let mut i: usize = 0;
    while i <= v.len()
        invariant
            v@ == text@,
            i <= v@.len(),
            has_word_from(v@, word@, 0) == has_word_from(v@, word@, i as int),
        decreases v@.len() - i,
    {
        let a = skip_ascii_ws_exec(&v, i);
        let b = word_end_exec(&v, a);
        if !(a < b) {
            return false;
        }
        let w = string_of_range(&v, a, b);
        if str_eq(w.as_str(), word.as_str()) {
            return true;
        }
        i = b;
    }
    false
}

impl SimpleSelector {
    /// Whether this selector picks the node.
    pub fn matches(&self, n: &Box<Node>) -> (r: bool)
        ensures
            r == selector_matches(self@, n.view()),
    {
        match &n.node_type {
            NodeType::Text(_) => false,
            NodeType::Element(e) => match self {
                SimpleSelector::UniversalSelector => true,
                SimpleSelector::TypeSelector { tag_name } => str_eq(e.tag_name.as_str(), tag_name.as_str()),
                SimpleSelector::AttributeSelector { tag_name, op, attribute, value } => {
                    if !str_eq(e.tag_name.as_str(), tag_name.as_str()) {
                        return false;
                    }
                    match op {
                        AttributeSelectorOp::Eq => match e.attributes.get(attribute.as_str()) {
                            Some(v) => str_eq(v.as_str(), value.as_str()),
                            None => false,
                        },
                        AttributeSelectorOp::Contain => match e.attributes.get(attribute.as_str()) {
                            Some(v) => has_word(v, value),
                            None => false,
                        },
                    }
                },
                SimpleSelector::ClassSelector { class_name: name } => {
                    proof {
                        reveal_strlit("class");
                        assert("class"@ =~= class_name());
                    }
                    match e.attributes.get("class") {
                        Some(v) => str_eq(v.as_str(), name.as_str()),
                        None => false,
                    }
                },
            },
        }
    }
}

impl Rule {
    /// Whether any of this rule's selectors picks the node.
    pub fn matches(&self, n: &Box<Node>) -> (r: bool)
        ensures
            r == rule_matches(self@, n.view()),
    {
        let k = self.selectors.len();
        let mut i: usize = 0;
        while i < k
            invariant
                k == self.selectors@.len(),
                i <= k,
                forall|j: int| 0 <= j < i ==> !selector_matches(#[trigger] self@.selectors[j], n.view()),
            decreases k - i,
        {
            if self.selectors[i].matches(n) {
                assert(selector_matches(self@.selectors[i as int], n.view()));
                return true;
            }
            i = i + 1;
        }
        false
    }
}

} // verus!
