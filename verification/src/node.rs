//! The node tree: element kinds, attribute mappings, and the `Node` type
//! produced by a successful parse, together with its mathematical model.

use vstd::prelude::*;
use vstd::slice::slice_subrange;
use vstd::string::StringSliceAdditionalSpecFns;

use crate::lex::{rskip_ws, skip_ws, spec_rskip_ws, spec_skip_ws};

verus! {

broadcast use vstd::std_specs::vec::axiom_vec_index_decreases, vstd::seq::axiom_seq_index_decreases;

/// The closed vocabulary of element tags. Any other tag name is a parse
/// error, never plain text.
#[derive(Clone, Copy, Debug, PartialEq, Eq, Structural)]
pub enum ElementKind {
    Html,
    H1,
    H2,
    H3,
    Div,
    P,
    Br,
    Bold,
    Link,
}

/// The element kind named by a tag word, if the word is in the vocabulary:
/// `html`, `h1`, `h2`, `h3`, `div`, `p`, `br`, `b`, `link`.
pub open spec fn spec_kind_of_tag(w: Seq<u8>) -> Option<ElementKind> {
    if w == seq![104u8, 116u8, 109u8, 108u8] {
        Some(ElementKind::Html)
    } else if w == seq![104u8, 49u8] {
        Some(ElementKind::H1)
    } else if w == seq![104u8, 50u8] {
        Some(ElementKind::H2)
    } else if w == seq![104u8, 51u8] {
        Some(ElementKind::H3)
    } else if w == seq![100u8, 105u8, 118u8] {
        Some(ElementKind::Div)
    } else if w == seq![112u8] {
        Some(ElementKind::P)
    } else if w == seq![98u8, 114u8] {
        Some(ElementKind::Br)
    } else if w == seq![98u8] {
        Some(ElementKind::Bold)
    } else if w == seq![108u8, 105u8, 110u8, 107u8] {
        Some(ElementKind::Link)
    } else {
        None
    }
}

impl ElementKind {
    /// Resolve a tag word against the closed vocabulary.
    pub fn from_tag(w: &[u8]) -> (r: Option<ElementKind>)
        ensures
            r == spec_kind_of_tag(w@),
    {
        let n = w.len();
        if n == 4 && w[0] == 104 && w[1] == 116 && w[2] == 109 && w[3] == 108 {
            proof { assert(w@ =~= seq![104u8, 116u8, 109u8, 108u8]); }
            Some(ElementKind::Html)
        } else if n == 2 && w[0] == 104 && w[1] == 49 {
            proof { assert(w@ =~= seq![104u8, 49u8]); }
            Some(ElementKind::H1)
        } else if n == 2 && w[0] == 104 && w[1] == 50 {
            proof { assert(w@ =~= seq![104u8, 50u8]); }
            Some(ElementKind::H2)
        } else if n == 2 && w[0] == 104 && w[1] == 51 {
            proof { assert(w@ =~= seq![104u8, 51u8]); }
            Some(ElementKind::H3)
        } else if n == 3 && w[0] == 100 && w[1] == 105 && w[2] == 118 {
            proof { assert(w@ =~= seq![100u8, 105u8, 118u8]); }
            Some(ElementKind::Div)
        } else if n == 1 && w[0] == 112 {
            proof { assert(w@ =~= seq![112u8]); }
            Some(ElementKind::P)
        } else if n == 2 && w[0] == 98 && w[1] == 114 {
            proof { assert(w@ =~= seq![98u8, 114u8]); }
            Some(ElementKind::Br)
        } else if n == 1 && w[0] == 98 {
            proof { assert(w@ =~= seq![98u8]); }
            Some(ElementKind::Bold)
        } else if n == 4 && w[0] == 108 && w[1] == 105 && w[2] == 110 && w[3] == 107 {
            proof { assert(w@ =~= seq![108u8, 105u8, 110u8, 107u8]); }
            Some(ElementKind::Link)
        } else {
            None
        }
    }
}

/// A parsed node: a raw text run, or a tagged element with attributes and
/// ordered mixed content. Text, keys and values are byte slices borrowed
/// from the input.
///
/// `attributes` keeps the key/value pairs in source order; its meaning is
/// the mapping [`attrs_map`], in which a later pair with the same key wins.
/// Node equality compares that mapping, not the pair order.
#[derive(Debug)]
pub enum Node<'a> {
    Element {
        kind: ElementKind,
        attributes: Vec<(&'a [u8], &'a [u8])>,
        content: Vec<Node<'a>>,
    },
    RawText(&'a [u8]),
}

/// Mathematical model of a node tree: text runs as byte sequences and
/// attribute lists as finite maps.
pub enum SpecNode {
    Element { kind: ElementKind, attributes: Map<Seq<u8>, Seq<u8>>, content: Seq<SpecNode> },
    Text(Seq<u8>),
}

/// The nesting depth of a node model: a text run is flat, an element is one
/// deeper than its deepest child.
pub open spec fn spec_depth(t: SpecNode) -> nat
    decreases t, 0int,
{
    match t {
        SpecNode::Text(_) => 0,
        SpecNode::Element { content, .. } => 1 + depth_from(content, 0),
    }
}

/// The deepest child model at or after index `i`.
pub open spec fn depth_from(content: Seq<SpecNode>, i: int) -> nat
    decreases content, content.len() - i,
{
    if 0 <= i < content.len() {
        let here = spec_depth(content[i]);
        let rest = depth_from(content, i + 1);
        if here >= rest {
            here
        } else {
            rest
        }
    } else {
        0
    }
}

/// The mapping denoted by a pair list: pairs are inserted left to right,
/// so of two pairs with the same key the later one wins.
pub open spec fn attrs_map(pairs: Seq<(&[u8], &[u8])>) -> Map<Seq<u8>, Seq<u8>>
    decreases pairs.len(),
{
    if pairs.len() == 0 {
        Map::empty()
    } else {
        attrs_map(pairs.drop_last()).insert(pairs.last().0@, pairs.last().1@)
    }
}

/// `s` with leading and trailing whitespace removed: the text policy of the
/// convenience constructor [`Node::new_plaintext`]. The parser itself stores
/// text runs verbatim, so re-parsing is deterministic; trimming happens only
/// at explicit construction.
pub open spec fn spec_trim(s: Seq<u8>) -> Seq<u8> {
    let a = spec_skip_ws(s, 0);
    let b = spec_rskip_ws(s, s.len() as int);
    if a <= b {
        s.subrange(a, b)
    } else {
        Seq::empty()
    }
}

impl<'a> Node<'a> {
    /// A text node holding `s` with surrounding whitespace trimmed.
    pub fn new_plaintext(s: &'a str) -> (r: Node<'a>)
        ensures
            r.view() == SpecNode::Text(spec_trim(s.spec_bytes())),
    {
        let bytes = s.as_bytes();
        let a = skip_ws(bytes, 0);
        let b = rskip_ws(bytes, bytes.len());
        if a <= b {
            Node::RawText(slice_subrange(bytes, a, b))
        } else {
            let empty = slice_subrange(bytes, 0, 0);
            proof {
                assert(empty@ =~= Seq::<u8>::empty());
            }
            Node::RawText(empty)
        }
    }

    /// An element node with the given kind, attribute pairs and children.
    pub fn new_element(
        kind: ElementKind,
        attributes: Vec<(&'a [u8], &'a [u8])>,
        content: Vec<Node<'a>>,
    ) -> (r: Node<'a>)
        ensures
            r.view() == (SpecNode::Element {
                kind,
                attributes: attrs_map(attributes@),
                content: content_view(content),
            }),
    {
        Node::Element { kind, attributes, content }
    }

    /// The model of this node.
    pub open spec fn view(self) -> SpecNode
        decreases self,
    {
        match self {
            Node::RawText(t) => SpecNode::Text(t@),
            Node::Element { kind, attributes, content } => SpecNode::Element {
                kind,
                attributes: attrs_map(attributes@),
                content: content_view(content),
            },
        }
    }
}

/// The models of a vector of child nodes, in order.
pub open spec fn content_view(content: Vec<Node>) -> Seq<SpecNode>
    decreases content,
{
    Seq::new(
        content@.len(),
        |i: int|
            if 0 <= i < content.len() {
                content[i].view()
            } else {
                SpecNode::Text(Seq::empty())
            },
    )
}

/// Byte-slice equality, byte for byte.
pub fn bytes_eq(a: &[u8], b: &[u8]) -> (r: bool)
    ensures
        r == (a@ == b@),
{
    if a.len() != b.len() {
        return false;
    }
    let n = a.len();
    let mut i: usize = 0;
    while i < n
        invariant
            n == a@.len() == b@.len(),
            i <= n,
            forall|j: int| 0 <= j < i ==> a@[j] == b@[j],
        decreases n - i,
    {
        if a[i] != b[i] {
            return false;
        }
        i = i + 1;
    }
    proof {
        assert(a@ =~= b@);
    }
    true
}

/// The value a key takes in a mapping, if any.
pub open spec fn map_get(m: Map<Seq<u8>, Seq<u8>>, k: Seq<u8>) -> Option<Seq<u8>> {
    if m.contains_key(k) {
        Some(m[k])
    } else {
        None
    }
}

/// Look a key up in an attribute pair list: the value the pair list's
/// mapping gives it, the later of two pairs with one key winning.
pub fn lookup_attribute<'x>(pairs: &Vec<(&'x [u8], &'x [u8])>, key: &[u8]) -> (r: Option<
    &'x [u8],
>)
    ensures
        match r {
            Some(v) => map_get(attrs_map(pairs@), key@) == Some(v@),
            None => map_get(attrs_map(pairs@), key@) is None,
        },
{
    let mut i = pairs.len();
    proof {
        assert(pairs@.subrange(0, i as int) =~= pairs@);
    }
    while i > 0
        invariant
            i <= pairs@.len(),
            map_get(attrs_map(pairs@), key@) == map_get(
                attrs_map(pairs@.subrange(0, i as int)),
                key@,
            ),
        decreases i,
    {
        i = i - 1;
        let ghost prefix = pairs@.subrange(0, i + 1);
        proof {
            assert(prefix.drop_last() =~= pairs@.subrange(0, i as int));
        }
        let pair = pairs[i];
        if bytes_eq(pair.0, key) {
            return Some(pair.1);
        }
    }
    proof {
        assert(pairs@.subrange(0, 0) =~= Seq::<(&[u8], &[u8])>::empty());
    }
    None
}

/// Whether two attribute pair lists denote one mapping, pair order and
/// repetition aside.
pub fn attrs_eq(a: &Vec<(&[u8], &[u8])>, b: &Vec<(&[u8], &[u8])>) -> (r: bool)
    ensures
        r == (attrs_map(a@) == attrs_map(b@)),
{
    let mut i: usize = 0;
    while i < a.len()
        invariant
            i <= a@.len(),
            forall|j: int|
                0 <= j < i ==> map_get(attrs_map(b@), #[trigger] a@[j].0@) == map_get(
                    attrs_map(a@),
                    a@[j].0@,
                ),
        decreases a@.len() - i,
    {
        let key = a[i].0;
        proof {
            lemma_attrs_map_keys(a@);
            assert(a@[i as int].0@ == key@);
            assert(attrs_map(a@).contains_key(key@));
        }
        let va = lookup_attribute(a, key);
        let vb = lookup_attribute(b, key);
        match (va, vb) {
            (Some(x), Some(y)) => {
                if !bytes_eq(x, y) {
                    return false;
                }
            },
            _ => {
                return false;
            },
        }
        i = i + 1;
    }
    let mut j: usize = 0;
    while j < b.len()
        invariant
            j <= b@.len(),
            forall|jj: int|
                0 <= jj < a@.len() ==> map_get(attrs_map(b@), #[trigger] a@[jj].0@) == map_get(
                    attrs_map(a@),
                    a@[jj].0@,
                ),
            forall|jj: int|
                0 <= jj < j ==> map_get(attrs_map(a@), #[trigger] b@[jj].0@) == map_get(
                    attrs_map(b@),
                    b@[jj].0@,
                ),
        decreases b@.len() - j,
    {
        let key = b[j].0;
        proof {
            lemma_attrs_map_keys(b@);
            assert(b@[j as int].0@ == key@);
            assert(attrs_map(b@).contains_key(key@));
        }
        let va = lookup_attribute(a, key);
        let vb = lookup_attribute(b, key);
        match (va, vb) {
            (Some(x), Some(y)) => {
                if !bytes_eq(x, y) {
                    return false;
                }
            },
            _ => {
                return false;
            },
        }
        j = j + 1;
    }
    proof {
        lemma_attrs_map_keys(a@);
        lemma_attrs_map_keys(b@);
        assert forall|k: Seq<u8>| attrs_map(a@).contains_key(k) implies attrs_map(
            b@,
        ).contains_key(k) && attrs_map(a@)[k] == attrs_map(b@)[k] by {
            let idx = choose|idx: int| 0 <= idx < a@.len() && a@[idx].0@ == k;
            assert(map_get(attrs_map(b@), a@[idx].0@) == map_get(attrs_map(a@), a@[idx].0@));
        }
        assert forall|k: Seq<u8>| attrs_map(b@).contains_key(k) implies attrs_map(
            a@,
        ).contains_key(k) by {
            let idx = choose|idx: int| 0 <= idx < b@.len() && b@[idx].0@ == k;
            assert(map_get(attrs_map(a@), b@[idx].0@) == map_get(attrs_map(b@), b@[idx].0@));
        }
        assert(attrs_map(a@) =~= attrs_map(b@));
    }
    true
}

/// Whether the pair list `v` holds a pair binding key `k` to value `w`.
pub open spec fn has_pair(v: Seq<(&[u8], &[u8])>, k: Seq<u8>, w: Seq<u8>) -> bool {
    exists|i: int| 0 <= i < v.len() && v[i].0@ == k && v[i].1@ == w
}

/// Whether all keys of the pair list `v` are distinct.
pub open spec fn distinct_keys(v: Seq<(&[u8], &[u8])>) -> bool {
    forall|i: int, j: int| 0 <= i < j < v.len() ==> v[i].0@ != v[j].0@
}

/// In a distinct-keyed pair list, each pair's key maps to that pair's value.
pub proof fn lemma_attrs_map_value(v: Seq<(&[u8], &[u8])>, i: int)
    requires
        distinct_keys(v),
        0 <= i < v.len(),
    ensures
        attrs_map(v).contains_key(v[i].0@),
        attrs_map(v)[v[i].0@] == v[i].1@,
    decreases v.len(),
{
    if i == v.len() - 1 {
        assert(v.last() == v[i]);
    } else {
        let dl = v.drop_last();
        assert forall|a: int, b: int| 0 <= a < b < dl.len() implies dl[a].0@ != dl[b].0@ by {
            assert(dl[a] == v[a]);
            assert(dl[b] == v[b]);
        }
        lemma_attrs_map_value(dl, i);
        assert(dl[i] == v[i]);
        assert(v[i].0@ != v.last().0@);
    }
}

/// Attribute order does not matter: two distinct-keyed pair lists holding
/// the same pairs, in whatever order, denote one mapping.
pub proof fn lemma_attrs_order_independent(v1: Seq<(&[u8], &[u8])>, v2: Seq<(&[u8], &[u8])>)
    requires
        distinct_keys(v1),
        distinct_keys(v2),
        forall|k: Seq<u8>, w: Seq<u8>| has_pair(v1, k, w) <==> has_pair(v2, k, w),
    ensures
        attrs_map(v1) == attrs_map(v2),
{
    lemma_attrs_map_keys(v1);
    lemma_attrs_map_keys(v2);
    assert forall|k: Seq<u8>| #[trigger] attrs_map(v1).dom().contains(k) implies attrs_map(
        v2,
    ).dom().contains(k) && attrs_map(v1)[k] == attrs_map(v2)[k] by {
        assert(attrs_map(v1).contains_key(k));
        let i = choose|i: int| 0 <= i < v1.len() && v1[i].0@ == k;
        lemma_attrs_map_value(v1, i);
        assert(has_pair(v1, k, v1[i].1@));
        assert(has_pair(v2, k, v1[i].1@));
        let j = choose|j: int| 0 <= j < v2.len() && v2[j].0@ == k && v2[j].1@ == v1[i].1@;
        lemma_attrs_map_value(v2, j);
        assert(attrs_map(v2).contains_key(k));
    }
    assert forall|k: Seq<u8>| #[trigger] attrs_map(v2).dom().contains(k) implies attrs_map(
        v1,
    ).dom().contains(k) by {
        assert(attrs_map(v2).contains_key(k));
        let j = choose|j: int| 0 <= j < v2.len() && v2[j].0@ == k;
        lemma_attrs_map_value(v2, j);
        assert(has_pair(v2, k, v2[j].1@));
        assert(has_pair(v1, k, v2[j].1@));
        let i = choose|i: int| 0 <= i < v1.len() && v1[i].0@ == k && v1[i].1@ == v2[j].1@;
        lemma_attrs_map_value(v1, i);
        assert(attrs_map(v1).contains_key(k));
    }
    assert(attrs_map(v1) =~= attrs_map(v2));
}

/// A pair list's mapping holds exactly the keys of its pairs.
pub proof fn lemma_attrs_map_keys(v: Seq<(&[u8], &[u8])>)
    ensures
        forall|k: Seq<u8>|
            attrs_map(v).contains_key(k) <==> exists|i: int| 0 <= i < v.len() && v[i].0@ == k,
    decreases v.len(),
{
    if v.len() > 0 {
        let dl = v.drop_last();
        lemma_attrs_map_keys(dl);
        assert forall|k: Seq<u8>| attrs_map(v).contains_key(k) implies exists|i: int|
            0 <= i < v.len() && v[i].0@ == k by {
            if k == v.last().0@ {
                assert(v[v.len() - 1].0@ == k);
            } else {
                assert(attrs_map(dl).contains_key(k));
                let i = choose|i: int| 0 <= i < dl.len() && dl[i].0@ == k;
                assert(dl[i] == v[i]);
                assert(v[i].0@ == k);
            }
        }
        assert forall|k: Seq<u8>|
            (exists|i: int| 0 <= i < v.len() && v[i].0@ == k) implies attrs_map(
            v,
        ).contains_key(k) by {
            let i = choose|i: int| 0 <= i < v.len() && v[i].0@ == k;
            if i < v.len() - 1 {
                assert(dl[i] == v[i]);
                assert(dl[i].0@ == k);
                assert(attrs_map(dl).contains_key(k));
            } else {
                assert(k == v.last().0@);
            }
        }
    }
}

/// Whether two nodes have one model: text runs byte for byte, elements by
/// kind, attribute mapping and children in order.
#[verifier::loop_isolation(false)]
pub fn node_eq(a: &Node, b: &Node) -> (r: bool)
    ensures
        r == (a.view() == b.view()),
    decreases *a,
{
    match a {
        Node::RawText(x) => {
            match b {
                Node::RawText(y) => bytes_eq(x, y),
                Node::Element { .. } => false,
            }
        },
        Node::Element { kind: k1, attributes: a1, content: c1 } => {
            match b {
                Node::RawText(_) => false,
                Node::Element { kind: k2, attributes: a2, content: c2 } => {
                    if *k1 != *k2 {
                        return false;
                    }
                    if !attrs_eq(a1, a2) {
                        return false;
                    }
                    if c1.len() != c2.len() {
                        assert(content_view(*c1).len() != content_view(*c2).len());
                        return false;
                    }
                    let n = c1.len();
                    let mut i: usize = 0;
                    while i < n
                        invariant
                            n == c1@.len() == c2@.len(),
                            i <= n,
                            forall|j: int| 0 <= j < i ==> content_view(*c1)[j] == content_view(*c2)[j],
                        decreases n - i,
                    {
                        if !node_eq(&c1[i], &c2[i]) {
                            assert(content_view(*c1)[i as int] != content_view(*c2)[i as int]);
                            return false;
                        }
                        assert(content_view(*c1)[i as int] == content_view(*c2)[i as int]);
                        i = i + 1;
                    }
                    proof {
                        assert(content_view(*c1) =~= content_view(*c2));
                    }
                    true
                },
            }
        },
    }
}

impl<'a> PartialEq for Node<'a> {
    /// Structural tree equality over the models: attribute mappings compare
    /// as mappings, so pair order and repetition do not matter.
    fn eq(&self, other: &Node<'a>) -> (r: bool) {
        node_eq(self, other)
    }
}

impl<'a> vstd::std_specs::cmp::PartialEqSpecImpl for Node<'a> {
    open spec fn obeys_eq_spec() -> bool {
        true
    }

    open spec fn eq_spec(&self, other: &Node<'a>) -> bool {
        self.view() == other.view()
    }
}

/// Appending a child appends its model.
pub proof fn lemma_content_view_push(content: Vec<Node>, more: Vec<Node>, child: Node)
    requires
        more@ == content@.push(child),
    ensures
        content_view(more) == content_view(content).push(child.view()),
{
    assert(content_view(more) =~= content_view(content).push(child.view()));
}

} // verus!
