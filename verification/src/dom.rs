//! A parsed HTML document as an arena of nodes (in the parser's insertion
//! order), and the tree walks the detector needs: proper ancestors,
//! pre-order descendants, text content, attributes and classes.

use vstd::prelude::*;

use crate::prices::{find_first, first_occurrence_from};
use crate::text::chars_of;

verus! {

/// What a node is.
pub enum NodeKind {
    /// An element with its local name, its classes (as the parser reports
    /// them: split on ASCII whitespace, sorted, without repeats) and its
    /// attributes `(namespace, local name, value)`.
    Element { name: String, classes: Vec<String>, attrs: Vec<(String, String, String)> },
    /// A text node.
    Text(String),
    /// Anything else (document, doctype, comment, ...).
    Other,
}

/// A node kind as plain values.
pub enum KindView {
    Element {
        name: Seq<char>,
        classes: Seq<Seq<char>>,
        attrs: Seq<(Seq<char>, Seq<char>, Seq<char>)>,
    },
    Text(Seq<char>),
    Other,
}

/// A node as plain values: its parent's index, its children's indices in
/// document order, and what it is.
pub struct NodeView {
    pub parent: Option<usize>,
    pub children: Seq<usize>,
    pub kind: KindView,
}

pub open spec fn kind_view(k: NodeKind) -> KindView {
    match k {
        NodeKind::Element { name, classes, attrs } => KindView::Element {
            name: name@,
            classes: classes@.map_values(|c: String| c@),
            attrs: attrs@.map_values(|a: (String, String, String)| (a.0@, a.1@, a.2@)),
        },
        NodeKind::Text(t) => KindView::Text(t@),
        NodeKind::Other => KindView::Other,
    }
}

/// The nodes that `scraper::Html::parse_document` builds for `source`, in
/// the tree's insertion order.
pub uninterp spec fn parsed_document(source: Seq<char>) -> Seq<NodeView>;

#[verifier::external_type_specification]
#[verifier::external_body]
pub struct ExHtml(scraper::Html);

/// The nodes of a parsed document, in the tree's insertion order.
pub uninterp spec fn html_nodes(h: scraper::Html) -> Seq<NodeView>;

/// Trusted: `scraper::Html::parse_document`, which runs the html5ever tree
/// builder over `source`. The contract only names the nodes of the result,
/// a function of `source` alone.
#[verifier::external_body]
fn parse_html(source: &str) -> (r: scraper::Html)
    ensures
        html_nodes(r) == parsed_document(source@),
{
    scraper::Html::parse_document(source)
}

/// Trusted: walks `Tree::nodes` (the arena in insertion order) and reports,
/// for each node, the arena positions of its parent (`NodeRef::parent`) and
/// of its children (`NodeRef::children`, in sibling order). A `NodeId` is
/// turned into its position by a binary search over the arena's ids, which
/// `Tree::nodes` yields in increasing order.
#[verifier::external_body]
fn node_links(h: &scraper::Html) -> (r: Vec<(Option<usize>, Vec<usize>)>)
    ensures
        r@.len() == html_nodes(*h).len(),
        forall|i: int|
            0 <= i < r@.len() ==> (#[trigger] r@[i]).0 == html_nodes(*h)[i].parent && r@[i].1@
                == html_nodes(*h)[i].children,
{
    let ids: Vec<ego_tree::NodeId> = h.tree.nodes().map(|n| n.id()).collect();
    let at = |id: ego_tree::NodeId| ids.binary_search(&id).unwrap_or(0);
    h.tree.nodes().map(|n| (n.parent().map(|p| at(p.id())), n.children().map(|c| at(c.id())).collect()))
        .collect()
}

/// Trusted: walks `Tree::nodes` and reports what each node is:
/// `Element::name`, `Element::classes`, and every attribute with its
/// namespace, local name and value; the text of a text node; nothing for
/// any other node.
#[verifier::external_body]
fn node_kinds(h: &scraper::Html) -> (r: Vec<NodeKind>)
    ensures
        r@.len() == html_nodes(*h).len(),
        forall|i: int| 0 <= i < r@.len() ==> kind_view(#[trigger] r@[i]) == html_nodes(*h)[i].kind,
{
    h.tree.nodes().map(|n| match n.value() {
        scraper::Node::Element(e) => NodeKind::Element {
            name: e.name().to_string(),
            classes: e.classes().map(String::from).collect(),
            attrs: e.attrs.iter().map(|(k, v)| (k.ns.to_string(), k.local.to_string(), v.to_string())).collect(),
        },
        scraper::Node::Text(t) => NodeKind::Text(t.text.to_string()),
        _ => NodeKind::Other,
    }).collect()
}

/// Whether `i` indexes a node of `d`.
pub open spec fn valid(d: Seq<NodeView>, i: int) -> bool {
    0 <= i < d.len()
}

/// The proper ancestors of `i`, nearest first, following at most `fuel`
/// parent links (a tree of `n` nodes needs at most `n`).
pub open spec fn ancestors_f(d: Seq<NodeView>, i: int, fuel: nat) -> Seq<int>
    decreases fuel,
{
    if fuel == 0 || !valid(d, i) {
        seq![]
    } else {
        match d[i].parent {
            None => seq![],
            Some(p) => if valid(d, p as int) {
                seq![p as int] + ancestors_f(d, p as int, (fuel - 1) as nat)
            } else {
                seq![]
            },
        }
    }
}

/// The proper ancestors of `i`, nearest first (`NodeRef::ancestors`).
pub open spec fn ancestors(d: Seq<NodeView>, i: int) -> Seq<int> {
    ancestors_f(d, i, d.len())
}

/// `i` and its descendants in pre-order (`NodeRef::descendants`), down to
/// `fuel` levels.
pub open spec fn preorder_f(d: Seq<NodeView>, i: int, fuel: nat) -> Seq<int>
    decreases fuel, 0int,
{
    if fuel == 0 || !valid(d, i) {
        seq![]
    } else {
        seq![i] + preorder_list(d, d[i].children, (fuel - 1) as nat)
    }
}

/// The pre-order traversals of the nodes `cs`, one after another.
pub open spec fn preorder_list(d: Seq<NodeView>, cs: Seq<usize>, fuel: nat) -> Seq<int>
    decreases fuel, 1 + cs.len(),
{
    if cs.len() == 0 {
        seq![]
    } else {
        preorder_list(d, cs.drop_last(), fuel) + preorder_f(d, cs.last() as int, fuel)
    }
}

/// `i` and its descendants in pre-order.
pub open spec fn preorder(d: Seq<NodeView>, i: int) -> Seq<int> {
    preorder_f(d, i, d.len())
}

/// The text of node `i` (empty for a node that is not a text node).
pub open spec fn node_text(d: Seq<NodeView>, i: int) -> Seq<char> {
    if valid(d, i) {
        match d[i].kind {
            KindView::Text(t) => t,
            _ => seq![],
        }
    } else {
        seq![]
    }
}

/// The texts of the nodes `ids`, concatenated.
pub open spec fn texts(d: Seq<NodeView>, ids: Seq<int>) -> Seq<char>
    decreases ids.len(),
{
    if ids.len() == 0 {
        seq![]
    } else {
        texts(d, ids.drop_last()) + node_text(d, ids.last())
    }
}

/// The text content of `i`: the texts of its text descendants in document
/// order.
pub open spec fn text_content(d: Seq<NodeView>, i: int) -> Seq<char> {
    texts(d, preorder(d, i))
}

/// The value of the first attribute of `attrs` in no namespace whose local
/// name is `name`.
pub open spec fn attr_lookup(attrs: Seq<(Seq<char>, Seq<char>, Seq<char>)>, name: Seq<char>) -> Option<
    Seq<char>,
>
    decreases attrs.len(),
{
    if attrs.len() == 0 {
        None
    } else {
        let r = attr_lookup(attrs.drop_last(), name);
        if r.is_some() {
            r
        } else if attrs.last().0.len() == 0 && attrs.last().1 == name {
            Some(attrs.last().2)
        } else {
            None
        }
    }
}

/// The value of attribute `name` of element `i`.
pub open spec fn attr(d: Seq<NodeView>, i: int, name: Seq<char>) -> Option<Seq<char>> {
    if valid(d, i) {
        match d[i].kind {
            KindView::Element { attrs, .. } => attr_lookup(attrs, name),
            _ => None,
        }
    } else {
        None
    }
}

/// The classes of element `i` (none for another node).
pub open spec fn classes(d: Seq<NodeView>, i: int) -> Seq<Seq<char>> {
    if valid(d, i) {
        match d[i].kind {
            KindView::Element { classes, .. } => classes,
            _ => seq![],
        }
    } else {
        seq![]
    }
}

/// Whether node `i` is an element named `tag`.
pub open spec fn is_tag(d: Seq<NodeView>, i: int, tag: Seq<char>) -> bool {
    valid(d, i) && match d[i].kind {
        KindView::Element { name, .. } => name == tag,
        _ => false,
    }
}

/// Whether node `i` is an element.
pub open spec fn is_element(d: Seq<NodeView>, i: int) -> bool {
    valid(d, i) && d[i].kind is Element
}

/// Whether node `i` is a text node.
pub open spec fn is_text(d: Seq<NodeView>, i: int) -> bool {
    valid(d, i) && d[i].kind is Text
}

/// Whether `p` occurs in `s`.
pub open spec fn has_sub(s: Seq<char>, p: Seq<char>) -> bool {
    first_occurrence_from(s, p, 0) != -1
}

/// Whether `p` is a run of consecutive characters of `s`: it starts some
/// suffix of `s`.
pub open spec fn occurs_in(s: Seq<char>, p: Seq<char>) -> bool {
    exists|i: int| 0 <= i <= s.len() && p.is_prefix_of(#[trigger] s.skip(i))
}

proof fn lemma_first_occurrence_exact(s: Seq<char>, p: Seq<char>, k: int)
    requires
        0 <= k,
    ensures
        first_occurrence_from(s, p, k) == -1 || first_occurrence_from(s, p, k) >= k,
        first_occurrence_from(s, p, k) >= 0 <==> exists|i: int|
            k <= i <= s.len() && p.is_prefix_of(#[trigger] s.skip(i)),
    decreases s.len() + 1 - k,
{
    if k + p.len() > s.len() {
        assert forall|i: int| k <= i <= s.len() implies !p.is_prefix_of(#[trigger] s.skip(i)) by {}
    } else {
        lemma_first_occurrence_exact(s, p, k + 1);
        if s.subrange(k, k + p.len()) == p {
            assert(p =~= s.skip(k).subrange(0, p.len() as int));
            assert(p.is_prefix_of(s.skip(k)));
        } else {
            assert forall|i: int| k <= i <= s.len() && p.is_prefix_of(#[trigger] s.skip(i)) implies k + 1 <= i by {
                if i == k {
                    assert(s.subrange(k, k + p.len()) =~= s.skip(k).subrange(0, p.len() as int));
                }
            }
        }
    }
}

/// [`has_sub`] says exactly that `p` occurs in `s`.
pub proof fn lemma_has_sub_occurs(s: Seq<char>, p: Seq<char>)
    ensures
        has_sub(s, p) <==> occurs_in(s, p),
{
    lemma_first_occurrence_exact(s, p, 0);
}

/// A character of `s` occurs in it as a one-character run.
pub proof fn lemma_char_occurs(s: Seq<char>, c: char)
    requires
        s.contains(c),
    ensures
        occurs_in(s, seq![c]),
        has_sub(s, seq![c]),
{
    let i = choose|i: int| 0 <= i < s.len() && s[i] == c;
    assert(seq![c] =~= s.skip(i).subrange(0, 1));
    assert(seq![c].is_prefix_of(s.skip(i)));
    lemma_has_sub_occurs(s, seq![c]);
}

/// Whether element `i` has a class that contains `pat`.
pub open spec fn class_contains(d: Seq<NodeView>, i: int, pat: Seq<char>) -> bool {
    valid(d, i) && match d[i].kind {
        KindView::Element { classes, .. } => exists|k: int|
            0 <= k < classes.len() && has_sub(#[trigger] classes[k], pat),
        _ => false,
    }
}

/// A parsed document: for each node, in the tree's insertion order, its
/// links (parent, children) and its kind.
pub struct Dom {
    links: Vec<(Option<usize>, Vec<usize>)>,
    kinds: Vec<NodeKind>,
}

impl Dom {
    #[verifier::type_invariant]
    spec fn well_formed(self) -> bool {
        self.links@.len() == self.kinds@.len()
    }

    /// The document as plain values.
    pub closed spec fn view_nodes(&self) -> Seq<NodeView> {
        Seq::new(
            self.kinds@.len(),
            |i: int|
                NodeView {
                    parent: self.links@[i].0,
                    children: self.links@[i].1@,
                    kind: kind_view(self.kinds@[i]),
                },
        )
    }

    /// The number of nodes.
    pub fn len(&self) -> (r: usize)
        ensures
            r == self.view_nodes().len(),
    {
        self.kinds.len()
    }

    /// The parent of `i`, when it has one that indexes a node.
    pub fn parent(&self, i: usize) -> (r: Option<usize>)
        requires
            i < self.view_nodes().len(),
        ensures
            r == match self.view_nodes()[i as int].parent {
                Some(p) => if valid(self.view_nodes(), p as int) {
                    Some(p)
                } else {
                    None
                },
                None => None,
            },
    {
        proof {
            use_type_invariant(self);
        }
        match self.links[i].0 {
            Some(p) => if p < self.kinds.len() {
                Some(p)
            } else {
                None
            },
            None => None,
        }
    }

    /// The proper ancestors of `i`, nearest first.
    pub fn ancestors(&self, i: usize) -> (r: Vec<usize>)
        ensures
            r@.map_values(|x: usize| x as int) == ancestors(self.view_nodes(), i as int),
    {
        let n = self.kinds.len();
        let ghost d = self.view_nodes();
        let mut out: Vec<usize> = Vec::new();
        let mut cur = i;
        let mut fuel = n;
        let mut done = false;
        while !done && fuel > 0 && cur < n
            invariant
                n == d.len(),
                d == self.view_nodes(),
                fuel <= n,
                ancestors(d, i as int) == out@.map_values(|x: usize| x as int) + ancestors_f(
                    d,
                    cur as int,
                    fuel as nat,
                ),
                done ==> ancestors_f(d, cur as int, fuel as nat) =~= Seq::<int>::empty(),
            decreases fuel, if done {
                0int
            } else {
                1int
            },
        {
            match self.parent(cur) {
                None => {
                    assert(ancestors_f(d, cur as int, fuel as nat) =~= Seq::<int>::empty());
                    done = true;
                },
                Some(p) => {
                    let ghost o = out@.map_values(|x: usize| x as int);
                    out.push(p);
                    assert(out@.map_values(|x: usize| x as int) =~= o.push(p as int));
                    cur = p;
                    fuel = fuel - 1;
                },
            }
        }
        proof {
            let rest = ancestors_f(d, cur as int, fuel as nat);
            if fuel == 0 || cur >= n {
                assert(rest =~= Seq::<int>::empty());
            }
            assert(out@.map_values(|x: usize| x as int) + rest =~= out@.map_values(
                |x: usize| x as int,
            ));
        }
        out
    }

    fn preorder_into(&self, i: usize, fuel: usize, out: &mut Vec<usize>)
        ensures
            final(out)@.map_values(|x: usize| x as int) == old(out)@.map_values(|x: usize| x as int)
                + preorder_f(self.view_nodes(), i as int, fuel as nat),
        decreases fuel,
    {
        let ghost d = self.view_nodes();
        if fuel == 0 || i >= self.kinds.len() {
            assert(out@.map_values(|x: usize| x as int) =~= old(out)@.map_values(|x: usize| x as int)
                + Seq::<int>::empty());
            return;
        }
        let ghost o = out@.map_values(|x: usize| x as int);
        out.push(i);
        assert(out@.map_values(|x: usize| x as int) =~= o + seq![i as int]);
        proof {
            use_type_invariant(self);
        }
        let children = &self.links[i].1;
        let ghost cs = d[i as int].children;
        assert(cs == children@);
        for k in 0..children.len()
            invariant
                d == self.view_nodes(),
                cs == children@,
                fuel > 0,
                out@.map_values(|x: usize| x as int) == o + seq![i as int] + preorder_list(
                    d,
                    cs.take(k as int),
                    (fuel - 1) as nat,
                ),
        {
            assert(cs.take(k + 1).drop_last() =~= cs.take(k as int));
            assert(cs.take(k + 1).last() == cs[k as int]);
            self.preorder_into(children[k], fuel - 1, out);
        }
        assert(cs.take(cs.len() as int) =~= cs);
    }

    /// `i` and its descendants in pre-order.
    pub fn preorder(&self, i: usize) -> (r: Vec<usize>)
        ensures
            r@.map_values(|x: usize| x as int) == preorder(self.view_nodes(), i as int),
    {
        let mut out: Vec<usize> = Vec::new();
        self.preorder_into(i, self.kinds.len(), &mut out);
        assert(out@.map_values(|x: usize| x as int) =~= Seq::<int>::empty().add(preorder(self.view_nodes(), i as int)));
        out
    }

    /// The text of node `i` (empty for a non-text node).
    pub fn node_text(&self, i: usize) -> (r: Vec<char>)
        ensures
            r@ == node_text(self.view_nodes(), i as int),
    {
        if i >= self.kinds.len() {
            return Vec::new();
        }
        proof {
            use_type_invariant(self);
        }
        match &self.kinds[i] {
            NodeKind::Text(t) => chars_of(t.as_str()),
            _ => Vec::new(),
        }
    }

    /// The texts of the nodes `ids`, concatenated.
    pub fn texts(&self, ids: &Vec<usize>) -> (r: Vec<char>)
        ensures
            r@ == texts(self.view_nodes(), ids@.map_values(|x: usize| x as int)),
    {
        let ghost iv = ids@.map_values(|x: usize| x as int);
        let mut out: Vec<char> = Vec::new();
        for k in 0..ids.len()
            invariant
                iv == ids@.map_values(|x: usize| x as int),
                out@ == texts(self.view_nodes(), iv.take(k as int)),
        {
            let t = self.node_text(ids[k]);
            assert(iv.take(k + 1).drop_last() =~= iv.take(k as int));
            assert(iv.take(k + 1).last() == ids@[k as int] as int);
            let ghost o = out@;
            for m in 0..t.len()
                invariant
                    out@ == o + t@.take(m as int),
            {
                out.push(t[m]);
                assert(out@ =~= o + t@.take(m + 1));
            }
            assert(t@.take(t@.len() as int) =~= t@);
        }
        assert(iv.take(ids.len() as int) =~= iv);
        out
    }

    /// The text content of `i`.
    pub fn text_content(&self, i: usize) -> (r: Vec<char>)
        ensures
            r@ == text_content(self.view_nodes(), i as int),
    {
        let ids = self.preorder(i);
        self.texts(&ids)
    }

    /// The value of attribute `name` of element `i`.
    pub fn attr(&self, i: usize, name: &str) -> (r: Option<Vec<char>>)
        ensures
            match r {
                Some(v) => attr(self.view_nodes(), i as int, name@) == Some(v@),
                None => attr(self.view_nodes(), i as int, name@).is_none(),
            },
    {
        if i >= self.kinds.len() {
            return None;
        }
        proof {
            use_type_invariant(self);
        }
        match &self.kinds[i] {
            NodeKind::Element { attrs, .. } => {
                let ghost av = attrs@.map_values(|a: (String, String, String)| (a.0@, a.1@, a.2@));
                assert(attr(self.view_nodes(), i as int, name@) == attr_lookup(av, name@));
                let key = name.to_string();
                for k in 0..attrs.len()
                    invariant
                        av == attrs@.map_values(|a: (String, String, String)| (a.0@, a.1@, a.2@)),
                        key@ == name@,
                        attr_lookup(av.take(k as int), name@).is_none(),
                        attr(self.view_nodes(), i as int, name@) == attr_lookup(av, name@),
                {
                    assert(av.take(k + 1).drop_last() =~= av.take(k as int));
                    assert(av.take(k + 1).last() == av[k as int]);
                    if attrs[k].0.as_str().is_empty() && attrs[k].1 == key {
                        proof {
                            crate::dom::lemma_attr_lookup_prefix(av, k as int + 1, name@);
                        }
                        assert(av[k as int].2 == attrs@[k as int].2@);
                        return Some(chars_of(attrs[k].2.as_str()));
                    }
                }
                assert(av.take(attrs.len() as int) =~= av);
                None
            },
            _ => None,
        }
    }

    /// The classes of element `i`.
    pub fn classes(&self, i: usize) -> (r: Vec<String>)
        ensures
            r@.map_values(|c: String| c@) == classes(self.view_nodes(), i as int),
    {
        let mut out: Vec<String> = Vec::new();
        if i >= self.kinds.len() {
            assert(out@.map_values(|c: String| c@) =~= Seq::<Seq<char>>::empty());
            return out;
        }
        proof {
            use_type_invariant(self);
        }
        match &self.kinds[i] {
            NodeKind::Element { classes, .. } => {
                let ghost cv = classes@.map_values(|c: String| c@);
                for k in 0..classes.len()
                    invariant
                        cv == classes@.map_values(|c: String| c@),
                        out@.map_values(|c: String| c@) == cv.take(k as int),
                {
                    let c = classes[k].clone();
                    let ghost o = out@.map_values(|c: String| c@);
                    out.push(c);
                    assert(out@.map_values(|c: String| c@) =~= o.push(cv[k as int]));
                    assert(cv.take(k + 1) =~= cv.take(k as int).push(cv[k as int]));
                }
                assert(cv.take(classes.len() as int) =~= cv);
                out
            },
            _ => {
                assert(out@.map_values(|c: String| c@) =~= Seq::<Seq<char>>::empty());
                out
            },
        }
    }

    /// Whether node `i` is an element named `tag`.
    pub fn is_tag(&self, i: usize, tag: &str) -> (r: bool)
        ensures
            r == is_tag(self.view_nodes(), i as int, tag@),
    {
        if i >= self.kinds.len() {
            return false;
        }
        proof {
            use_type_invariant(self);
        }
        match &self.kinds[i] {
            NodeKind::Element { name, .. } => {
                let t = tag.to_string();
                *name == t
            },
            _ => false,
        }
    }

    /// Whether node `i` is an element.
    pub fn is_element(&self, i: usize) -> (r: bool)
        ensures
            r == is_element(self.view_nodes(), i as int),
    {
        if i >= self.kinds.len() {
            return false;
        }
        proof {
            use_type_invariant(self);
        }
        match &self.kinds[i] {
            NodeKind::Element { .. } => true,
            _ => false,
        }
    }

    /// Whether node `i` is a text node.
    pub fn is_text(&self, i: usize) -> (r: bool)
        ensures
            r == is_text(self.view_nodes(), i as int),
    {
        if i >= self.kinds.len() {
            return false;
        }
        proof {
            use_type_invariant(self);
        }
        match &self.kinds[i] {
            NodeKind::Text(_) => true,
            _ => false,
        }
    }

    /// Whether element `i` has a class containing `pat`.
    pub fn class_contains(&self, i: usize, pat: &str) -> (r: bool)
        ensures
            r == class_contains(self.view_nodes(), i as int, pat@),
    {
        if i >= self.kinds.len() {
            return false;
        }
        proof {
            use_type_invariant(self);
        }
        let pc = chars_of(pat);
        match &self.kinds[i] {
            NodeKind::Element { classes, .. } => {
                let ghost cv = classes@.map_values(|c: String| c@);
                assert(match self.view_nodes()[i as int].kind {
                    KindView::Element { classes: c2, .. } => c2 == cv,
                    _ => false,
                });
                assert(class_contains(self.view_nodes(), i as int, pat@) == exists|k: int|
                    0 <= k < cv.len() && has_sub(#[trigger] cv[k], pat@));
                for k in 0..classes.len()
                    invariant
                        cv == classes@.map_values(|c: String| c@),
                        pc@ == pat@,
                        forall|m: int| 0 <= m < k ==> !has_sub(#[trigger] cv[m], pat@),
                        class_contains(self.view_nodes(), i as int, pat@) == exists|k: int|
                            0 <= k < cv.len() && has_sub(#[trigger] cv[k], pat@),
                {
                    let c = chars_of(classes[k].as_str());
                    assert(c@ == cv[k as int]);
                    if find_first(&c, &pc).is_some() {
                        assert(has_sub(cv[k as int], pat@));
                        return true;
                    }
                }
                false
            },
            _ => false,
        }
    }

    /// The children of `i` (empty for an invalid index).
    pub fn children(&self, i: usize) -> (r: &Vec<usize>)
        requires
            i < self.view_nodes().len(),
        ensures
            r@ == self.view_nodes()[i as int].children,
    {
        proof {
            use_type_invariant(self);
        }
        &self.links[i].1
    }
}

pub proof fn lemma_attr_lookup_prefix(
    av: Seq<(Seq<char>, Seq<char>, Seq<char>)>,
    k: int,
    name: Seq<char>,
)
    requires
        0 < k <= av.len(),
        attr_lookup(av.take(k - 1), name).is_none(),
        av[k - 1].0.len() == 0,
        av[k - 1].1 == name,
    ensures
        attr_lookup(av, name) == Some(av[k - 1].2),
    decreases av.len(),
{
    if av.len() == k {
        assert(av.drop_last() =~= av.take(k - 1));
    } else {
        assert(av.drop_last().take(k - 1) =~= av.take(k - 1));
        assert(av.drop_last()[k - 1] == av[k - 1]);
        lemma_attr_lookup_prefix(av.drop_last(), k, name);
    }
}

/// Parses `source` into a document.
pub fn parse(source: &str) -> (r: Dom)
    ensures
        r.view_nodes() == parsed_document(source@),
{
    let h = parse_html(source);
    let links = node_links(&h);
    let kinds = node_kinds(&h);
    let r = Dom { links, kinds };
    assert(r.view_nodes() =~= html_nodes(h));
    r
}

} // verus!
