//! The grid markup parser: a recursive descent over the input bytes, specified
//! by a total specification-level parser that the executable one returns
//! exactly.

use vstd::prelude::*;
use vstd::slice::slice_subrange;
use vstd::string::StringSliceAdditionalSpecFns;

use crate::lex::{scan_text, scan_word, skip_ws, spec_scan_text, spec_scan_word, spec_skip_ws};
use crate::node::{attrs_map, content_view, spec_kind_of_tag, ElementKind, Node, SpecNode};

verus! {

/// Why a parse failed. Every failure is fatal to the whole parse; `pos` is
/// the byte offset at which it was detected.
#[derive(Clone, Copy, Debug, PartialEq, Eq, Structural)]
pub enum ParseError {
    /// An expected token (element marker, identifier, or delimiter) was not
    /// found at `pos`.
    Lexical { pos: usize },
    /// The identifier at `pos` follows a `~` but is outside the closed tag
    /// vocabulary.
    UnknownElementKind { pos: usize },
    /// An attribute parenthesis group is present but holds zero pairs, or a
    /// pair at `pos` is missing its colon, its value, or its terminator.
    MalformedAttributeList { pos: usize },
    /// A content block opened by `{` has no matching `}`; detected at `pos`,
    /// the end of input.
    UnterminatedContent { pos: usize },
    /// The input holds no root element at all: it is empty or whitespace.
    EmptyDocument,
}

/// What parsing an attribute pair list (the inside of a parenthesis group,
/// starting at the first key) yields: the extended mapping and the position
/// just past the closing `)`, or the error. Pairs are comma-separated
/// `key : value`; of two pairs with one key the later wins.
pub open spec fn spec_parse_attr_pairs(
    s: Seq<u8>,
    pos: int,
    acc: Map<Seq<u8>, Seq<u8>>,
) -> Result<(Map<Seq<u8>, Seq<u8>>, int), ParseError>
    decreases s.len() - pos,
{
    let kend = spec_scan_word(s, pos);
    if kend == pos {
        Err(ParseError::MalformedAttributeList { pos: pos as usize })
    } else {
        let cpos = spec_skip_ws(s, kend);
        if !(cpos < s.len() && s[cpos] == 58) {  // :
            Err(ParseError::MalformedAttributeList { pos: cpos as usize })
        } else {
            let vstart = spec_skip_ws(s, cpos + 1);
            let vend = spec_scan_word(s, vstart);
            if vend == vstart {
                Err(ParseError::MalformedAttributeList { pos: vstart as usize })
            } else {
                let acc2 = acc.insert(s.subrange(pos, kend), s.subrange(vstart, vend));
                let next = spec_skip_ws(s, vend);
                if !(next < s.len()) {
                    Err(ParseError::MalformedAttributeList { pos: next as usize })
                } else if s[next] == 41 {  // )
                    Ok((acc2, next + 1))
                } else if s[next] == 44 {  // ,
                    let kstart = spec_skip_ws(s, next + 1);
                    // a pair consumes at least one byte, so the recursion is
                    // well-founded; the bound check makes that explicit
                    if pos < kstart <= s.len() {
                        spec_parse_attr_pairs(s, kstart, acc2)
                    } else {
                        Err(ParseError::MalformedAttributeList { pos: kstart as usize })
                    }
                } else {
                    Err(ParseError::MalformedAttributeList { pos: next as usize })
                }
            }
        }
    }
}

/// What parsing an element at `pos` yields: the node and the position just
/// past its closing `}`, or the error. An element is `~tag`, an optional
/// parenthesized attribute list, then a `{ ... }` content block.
pub open spec fn spec_parse_element(s: Seq<u8>, pos: int) -> Result<(SpecNode, int), ParseError>
    decreases s.len() - pos, 0int,
{
    if !(0 <= pos < s.len() && s[pos] == 126) {  // ~
        Err(ParseError::Lexical { pos: pos as usize })
    } else {
        let wend = spec_scan_word(s, pos + 1);
        if wend == pos + 1 {
            Err(ParseError::Lexical { pos: (pos + 1) as usize })
        } else {
            match spec_kind_of_tag(s.subrange(pos + 1, wend)) {
                None => Err(ParseError::UnknownElementKind { pos: (pos + 1) as usize }),
                Some(kind) => {
                    let apos = spec_skip_ws(s, wend);
                    if apos < s.len() && s[apos] == 40 {  // (
                        let kstart = spec_skip_ws(s, apos + 1);
                        if kstart < s.len() && s[kstart] == 41 {  // )
                            Err(ParseError::MalformedAttributeList { pos: kstart as usize })
                        } else if !(pos < kstart <= s.len()) {
                            Err(ParseError::MalformedAttributeList { pos: kstart as usize })
                        } else {
                            match spec_parse_attr_pairs(s, kstart, Map::empty()) {
                                Err(e) => Err(e),
                                Ok((attrs, apend)) => {
                                    let bpos = spec_skip_ws(s, apend);
                                    if pos < bpos <= s.len() {
                                        spec_parse_block(s, bpos, kind, attrs)
                                    } else {
                                        Err(ParseError::Lexical { pos: bpos as usize })
                                    }
                                },
                            }
                        }
                    } else {
                        if pos < apos <= s.len() {
                            spec_parse_block(s, apos, kind, attrs_empty())
                        } else {
                            Err(ParseError::Lexical { pos: apos as usize })
                        }
                    }
                },
            }
        }
    }
}

/// The empty attribute mapping: what an element without a parenthesis group
/// carries.
pub open spec fn attrs_empty() -> Map<Seq<u8>, Seq<u8>> {
    Map::empty()
}

/// What parsing a content block at `pos` (which must hold `{`) yields for an
/// element head already resolved to `kind` and `attrs`.
pub open spec fn spec_parse_block(
    s: Seq<u8>,
    pos: int,
    kind: ElementKind,
    attrs: Map<Seq<u8>, Seq<u8>>,
) -> Result<(SpecNode, int), ParseError>
    decreases s.len() - pos, 1int,
{
    if !(0 <= pos < s.len() && s[pos] == 123) {  // {
        Err(ParseError::Lexical { pos: pos as usize })
    } else {
        match spec_parse_children(s, pos + 1, Seq::empty()) {
            Err(e) => Err(e),
            Ok((content, cend)) => Ok(
                (SpecNode::Element { kind, attributes: attrs, content }, cend + 1),
            ),
        }
    }
}

/// What parsing the children of a content block yields, starting at `pos`
/// with the children `acc` already built: the full child sequence and the
/// position of the closing `}`, or the error. Each child is a nested
/// element (at a `~`) or a maximal text run; input ending before the `}`
/// is an unterminated block.
pub open spec fn spec_parse_children(
    s: Seq<u8>,
    pos: int,
    acc: Seq<SpecNode>,
) -> Result<(Seq<SpecNode>, int), ParseError>
    decreases s.len() - pos, 2int,
{
    if !(0 <= pos <= s.len()) {
        Err(ParseError::Lexical { pos: pos as usize })
    } else if pos == s.len() {
        Err(ParseError::UnterminatedContent { pos: pos as usize })
    } else if s[pos] == 125 {  // }
        Ok((acc, pos))
    } else if s[pos] == 126 {  // ~
        match spec_parse_element(s, pos) {
            Err(e) => Err(e),
            Ok((child, cend)) => {
                // an element consumes at least one byte, so the recursion is
                // well-founded; the bound check makes that explicit
                if pos < cend <= s.len() {
                    spec_parse_children(s, cend, acc.push(child))
                } else {
                    Err(ParseError::Lexical { pos: cend as usize })
                }
            },
        }
    } else {
        let tend = spec_scan_text(s, pos);
        if pos < tend <= s.len() {
            spec_parse_children(s, tend, acc.push(SpecNode::Text(s.subrange(pos, tend))))
        } else {
            Err(ParseError::Lexical { pos: tend as usize })
        }
    }
}

/// The recursive-descent parser over one input, held as the input's bytes.
pub struct GridParser<'a> {
    input: &'a [u8],
}

impl<'a> GridParser<'a> {
    /// The byte sequence this parser reads.
    pub closed spec fn bytes(self) -> Seq<u8> {
        self.input@
    }

    /// A parser over the given input string's bytes.
    pub fn new(input: &'a str) -> (r: GridParser<'a>)
        ensures
            r.bytes() == input.spec_bytes(),
    {
        GridParser { input: input.as_bytes() }
    }
}

/// The model of an attribute-pair-list result: the pair vector as its
/// mapping, positions as integers.
pub open spec fn attrs_result_view(
    r: Result<(Vec<(&[u8], &[u8])>, usize), ParseError>,
) -> Result<(Map<Seq<u8>, Seq<u8>>, int), ParseError> {
    match r {
        Ok((pairs, p)) => Ok((attrs_map(pairs@), p as int)),
        Err(e) => Err(e),
    }
}

/// The model of an element-parse result.
pub open spec fn elem_result_view(r: Result<(Node, usize), ParseError>) -> Result<
    (SpecNode, int),
    ParseError,
> {
    match r {
        Ok((n, p)) => Ok((n.view(), p as int)),
        Err(e) => Err(e),
    }
}

/// The model of a children-parse result.
pub open spec fn children_result_view(r: Result<(Vec<Node>, usize), ParseError>) -> Result<
    (Seq<SpecNode>, int),
    ParseError,
> {
    match r {
        Ok((content, p)) => Ok((content_view(content), p as int)),
        Err(e) => Err(e),
    }
}

/// The model of a document-parse result.
pub open spec fn root_result_view(r: Result<Node, ParseError>) -> Result<SpecNode, ParseError> {
    match r {
        Ok(n) => Ok(n.view()),
        Err(e) => Err(e),
    }
}

impl<'a> GridParser<'a> {
    /// Parse the comma-separated `key : value` pairs of an attribute list,
    /// starting at the first key; returns the pairs in source order and the
    /// position just past the closing `)`.
    fn parse_attr_pairs(&self, pos: usize) -> (r: Result<
        (Vec<(&'a [u8], &'a [u8])>, usize),
        ParseError,
    >)
        requires
            pos <= self.bytes().len(),
        ensures
            attrs_result_view(r) == spec_parse_attr_pairs(self.bytes(), pos as int, Map::empty()),
            r matches Ok(v) ==> pos < v.1 <= self.bytes().len(),
    {
        let s = self.input;
        let mut pairs: Vec<(&'a [u8], &'a [u8])> = Vec::new();
        let mut cur = pos;
        proof {
            assert(attrs_map(pairs@) =~= Map::<Seq<u8>, Seq<u8>>::empty());
        }
        loop
            invariant
                s@ == self.bytes(),
                pos <= cur <= s@.len(),
                spec_parse_attr_pairs(s@, pos as int, Map::empty()) == spec_parse_attr_pairs(
                    s@,
                    cur as int,
                    attrs_map(pairs@),
                ),
            decreases s@.len() - cur,
        {
            let kend = scan_word(s, cur);
            if kend == cur {
                return Err(ParseError::MalformedAttributeList { pos: cur });
            }
            let cpos = skip_ws(s, kend);
            if !(cpos < s.len() && s[cpos] == 58) {
                return Err(ParseError::MalformedAttributeList { pos: cpos });
            }
            let vstart = skip_ws(s, cpos + 1);
            let vend = scan_word(s, vstart);
            if vend == vstart {
                return Err(ParseError::MalformedAttributeList { pos: vstart });
            }
            let key = slice_subrange(s, cur, kend);
            let value = slice_subrange(s, vstart, vend);
            let ghost before = pairs@;
            pairs.push((key, value));
            proof {
                assert(pairs@.drop_last() =~= before);
            }
            let next = skip_ws(s, vend);
            if !(next < s.len()) {
                return Err(ParseError::MalformedAttributeList { pos: next });
            } else if s[next] == 41 {
                return Ok((pairs, next + 1));
            } else if s[next] == 44 {
                cur = skip_ws(s, next + 1);
            } else {
                return Err(ParseError::MalformedAttributeList { pos: next });
            }
        }
    }

    /// Parse the element whose `~` stands at `pos`; returns the node and the
    /// position just past its closing `}`.
    fn parse_element(&self, pos: usize) -> (r: Result<(Node<'a>, usize), ParseError>)
        requires
            pos <= self.bytes().len(),
        ensures
            elem_result_view(r) == spec_parse_element(self.bytes(), pos as int),
            r matches Ok(v) ==> pos < v.1 <= self.bytes().len(),
        decreases self.bytes().len() - pos, 1int,
    {
        let s = self.input;
        if !(pos < s.len() && s[pos] == 126) {
            return Err(ParseError::Lexical { pos });
        }
        let wend = scan_word(s, pos + 1);
        if wend == pos + 1 {
            return Err(ParseError::Lexical { pos: pos + 1 });
        }
        let tag = slice_subrange(s, pos + 1, wend);
        let kind_opt = ElementKind::from_tag(tag);
        if kind_opt.is_none() {
            return Err(ParseError::UnknownElementKind { pos: pos + 1 });
        }
        let kind = kind_opt.unwrap();
        let apos = skip_ws(s, wend);
        if apos < s.len() && s[apos] == 40 {
            let kstart = skip_ws(s, apos + 1);
            if kstart < s.len() && s[kstart] == 41 {
                return Err(ParseError::MalformedAttributeList { pos: kstart });
            }
            match self.parse_attr_pairs(kstart) {
                Err(e) => Err(e),
                Ok((pairs, apend)) => {
                    let bpos = skip_ws(s, apend);
                    self.parse_block(bpos, pos, kind, pairs)
                },
            }
        } else {
            self.parse_block(apos, pos, kind, Vec::new())
        }
    }

    /// Parse the `{ ... }` content block at `bpos` for an element head whose
    /// `~` stands at `start` and resolved to `kind` with attributes `pairs`.
    fn parse_block(
        &self,
        bpos: usize,
        start: usize,
        kind: ElementKind,
        pairs: Vec<(&'a [u8], &'a [u8])>,
    ) -> (r: Result<(Node<'a>, usize), ParseError>)
        requires
            start < bpos <= self.bytes().len(),
        ensures
            elem_result_view(r) == spec_parse_block(
                self.bytes(),
                bpos as int,
                kind,
                attrs_map(pairs@),
            ),
            r matches Ok(v) ==> bpos < v.1 <= self.bytes().len(),
        decreases self.bytes().len() - start, 0int,
    {
        let s = self.input;
        if !(bpos < s.len() && s[bpos] == 123) {
            return Err(ParseError::Lexical { pos: bpos });
        }
        match self.parse_children(bpos + 1) {
            Err(e) => Err(e),
            Ok((content, cend)) => Ok(
                (Node::Element { kind, attributes: pairs, content }, cend + 1),
            ),
        }
    }

    /// Parse the children of a content block, starting just past its `{`;
    /// returns the children and the position of the closing `}`.
    fn parse_children(&self, pos: usize) -> (r: Result<(Vec<Node<'a>>, usize), ParseError>)
        requires
            pos <= self.bytes().len(),
        ensures
            children_result_view(r) == spec_parse_children(
                self.bytes(),
                pos as int,
                Seq::empty(),
            ),
            r matches Ok(v) ==> pos <= v.1 < self.bytes().len(),
        decreases self.bytes().len() - pos, 2int,
    {
        let s = self.input;
        let mut acc: Vec<Node<'a>> = Vec::new();
        let mut cur = pos;
        proof {
            assert(content_view(acc) =~= Seq::<SpecNode>::empty());
        }
        loop
            invariant
                s@ == self.bytes(),
                pos <= cur <= s@.len(),
                spec_parse_children(s@, pos as int, Seq::empty()) == spec_parse_children(
                    s@,
                    cur as int,
                    content_view(acc),
                ),
            decreases s@.len() - cur,
        {
            if cur == s.len() {
                return Err(ParseError::UnterminatedContent { pos: cur });
            }
            let b = s[cur];
            if b == 125 {
                return Ok((acc, cur));
            }
            if b == 126 {
                match self.parse_element(cur) {
                    Err(e) => {
                        return Err(e);
                    },
                    Ok((child, cend)) => {
                        let ghost prev = acc;
                        acc.push(child);
                        proof {
                            crate::node::lemma_content_view_push(prev, acc, child);
                        }
                        cur = cend;
                    },
                }
            } else {
                let tend = scan_text(s, cur);
                if tend <= cur {
                    return Err(ParseError::Lexical { pos: tend });
                }
                let child = Node::RawText(slice_subrange(s, cur, tend));
                let ghost prev = acc;
                acc.push(child);
                proof {
                    crate::node::lemma_content_view_push(prev, acc, child);
                }
                cur = tend;
            }
        }
    }

    /// Parse the whole input as one document: a single root element with
    /// surrounding whitespace ignored; trailing non-whitespace is an error.
    pub fn parse(&self) -> (r: Result<Node<'a>, ParseError>)
        ensures
            root_result_view(r) == spec_parse(self.bytes()),
    {
        let s = self.input;
        let start = skip_ws(s, 0);
        if start == s.len() {
            return Err(ParseError::EmptyDocument);
        }
        match self.parse_element(start) {
            Err(e) => Err(e),
            Ok((root, end)) => {
                let rest = skip_ws(s, end);
                if rest == s.len() {
                    Ok(root)
                } else {
                    Err(ParseError::Lexical { pos: rest })
                }
            },
        }
    }
}

/// Parse a grid markup document: exactly what the specification parser says
/// of the input's bytes, node or positioned error.
pub fn parse_str<'a>(input: &'a str) -> (r: Result<Node<'a>, ParseError>)
    ensures
        root_result_view(r) == spec_parse(input.spec_bytes()),
{
    let parser = GridParser::new(input);
    parser.parse()
}

/// What parsing a whole document yields: exactly one root element, with
/// leading and trailing whitespace ignored; trailing non-whitespace after
/// the root is an error, and an empty or whitespace-only input holds no
/// document at all.
pub open spec fn spec_parse(s: Seq<u8>) -> Result<SpecNode, ParseError> {
    let start = spec_skip_ws(s, 0);
    if start == s.len() {
        Err(ParseError::EmptyDocument)
    } else {
        match spec_parse_element(s, start) {
            Err(e) => Err(e),
            Ok((root, end)) => {
                let rest = spec_skip_ws(s, end);
                if rest == s.len() {
                    Ok(root)
                } else {
                    Err(ParseError::Lexical { pos: rest as usize })
                }
            },
        }
    }
}

/// Re-parsing is deterministic: the outcome of a parse is a function of the
/// input bytes alone, so two parses of one input yield results with one
/// model — equal errors, or structurally equal trees (`==` on `Node`
/// compares the models).
pub proof fn lemma_parse_deterministic(
    s: Seq<u8>,
    r1: Result<Node, ParseError>,
    r2: Result<Node, ParseError>,
)
    requires
        root_result_view(r1) == spec_parse(s),
        root_result_view(r2) == spec_parse(s),
    ensures
        root_result_view(r1) == root_result_view(r2),
        r1 matches Ok(n1) ==> (r2 matches Ok(n2) && n1.view() == n2.view()),
{
}

/// A tag word outside the closed vocabulary is always rejected as
/// `UnknownElementKind`, never read as anything else: at any `~` followed by
/// a non-empty word that names no element kind, the element parse fails so,
/// whatever follows.
pub proof fn lemma_unknown_tag_rejected(s: Seq<u8>, pos: int)
    requires
        0 <= pos < s.len(),
        s[pos] == 126,
        spec_scan_word(s, pos + 1) > pos + 1,
        spec_kind_of_tag(s.subrange(pos + 1, spec_scan_word(s, pos + 1))) is None,
    ensures
        spec_parse_element(s, pos) == Err::<(SpecNode, int), ParseError>(
            ParseError::UnknownElementKind { pos: (pos + 1) as usize },
        ),
{
}

/// A document whose root element carries an unknown tag fails with
/// `UnknownElementKind` at the tag's position.
pub proof fn lemma_unknown_tag_rejected_document(s: Seq<u8>)
    requires
        spec_skip_ws(s, 0) < s.len(),
        s[spec_skip_ws(s, 0)] == 126,
        spec_scan_word(s, spec_skip_ws(s, 0) + 1) > spec_skip_ws(s, 0) + 1,
        spec_kind_of_tag(
            s.subrange(spec_skip_ws(s, 0) + 1, spec_scan_word(s, spec_skip_ws(s, 0) + 1)),
        ) is None,
    ensures
        spec_parse(s) == Err::<SpecNode, ParseError>(
            ParseError::UnknownElementKind { pos: (spec_skip_ws(s, 0) + 1) as usize },
        ),
{
    lemma_skip_ws_bounds(s, 0);
    lemma_unknown_tag_rejected(s, spec_skip_ws(s, 0));
}

/// Skipping whitespace never moves backwards nor past the end.
proof fn lemma_skip_ws_bounds(s: Seq<u8>, pos: int)
    requires
        0 <= pos <= s.len(),
    ensures
        pos <= spec_skip_ws(s, pos) <= s.len(),
    decreases s.len() - pos,
{
    if pos < s.len() && crate::lex::is_ws_byte(s[pos]) {
        lemma_skip_ws_bounds(s, pos + 1);
    }
}

/// Scanning a word never moves backwards nor past the end.
proof fn lemma_scan_word_bounds(s: Seq<u8>, pos: int)
    requires
        0 <= pos <= s.len(),
    ensures
        pos <= spec_scan_word(s, pos) <= s.len(),
    decreases s.len() - pos,
{
    if pos < s.len() && crate::lex::is_word_byte(s[pos]) {
        lemma_scan_word_bounds(s, pos + 1);
    }
}

/// A parenthesis group with zero pairs is malformed: an element head whose
/// `(` is followed (after whitespace) by `)` fails with
/// `MalformedAttributeList` at the `)`.
pub proof fn lemma_empty_attr_group_rejected(s: Seq<u8>, pos: int)
    requires
        0 <= pos < s.len(),
        s[pos] == 126,
        spec_scan_word(s, pos + 1) > pos + 1,
        spec_kind_of_tag(s.subrange(pos + 1, spec_scan_word(s, pos + 1))) is Some,
        spec_skip_ws(s, spec_scan_word(s, pos + 1)) < s.len(),
        s[spec_skip_ws(s, spec_scan_word(s, pos + 1))] == 40,
        spec_skip_ws(s, spec_skip_ws(s, spec_scan_word(s, pos + 1)) + 1) < s.len(),
        s[spec_skip_ws(s, spec_skip_ws(s, spec_scan_word(s, pos + 1)) + 1)] == 41,
    ensures
        spec_parse_element(s, pos) == Err::<(SpecNode, int), ParseError>(
            ParseError::MalformedAttributeList {
                pos: spec_skip_ws(s, spec_skip_ws(s, spec_scan_word(s, pos + 1)) + 1) as usize,
            },
        ),
{
}

/// An empty content block is not an error: an element head without an
/// attribute group whose `{` is immediately followed by `}` parses to an
/// element with no attributes and no children.
pub proof fn lemma_empty_block_accepted(s: Seq<u8>, pos: int)
    requires
        0 <= pos < s.len(),
        s[pos] == 126,
        spec_scan_word(s, pos + 1) > pos + 1,
        spec_kind_of_tag(s.subrange(pos + 1, spec_scan_word(s, pos + 1))) is Some,
        spec_skip_ws(s, spec_scan_word(s, pos + 1)) + 1 < s.len(),
        s[spec_skip_ws(s, spec_scan_word(s, pos + 1))] == 123,
        s[spec_skip_ws(s, spec_scan_word(s, pos + 1)) + 1] == 125,
    ensures
        spec_parse_element(s, pos) == Ok::<(SpecNode, int), ParseError>(
            (
                SpecNode::Element {
                    kind: spec_kind_of_tag(s.subrange(pos + 1, spec_scan_word(s, pos + 1)))->0,
                    attributes: Map::empty(),
                    content: Seq::empty(),
                },
                spec_skip_ws(s, spec_scan_word(s, pos + 1)) + 2,
            ),
        ),
{
    let wend = spec_scan_word(s, pos + 1);
    let bpos = spec_skip_ws(s, wend);
    lemma_scan_word_bounds(s, pos + 1);
    lemma_skip_ws_bounds(s, wend);
    assert(spec_parse_children(s, bpos + 1, Seq::empty()) == Ok::<(Seq<SpecNode>, int), ParseError>(
        (Seq::empty(), bpos + 1),
    ));
    assert(spec_parse_element(s, pos) == spec_parse_block(s, bpos, spec_kind_of_tag(
        s.subrange(pos + 1, wend),
    )->0, attrs_empty()));
}

/// The uniformly nested input of depth `n`: n copies of `~div{`, then n
/// closing braces.
pub open spec fn nested_divs(n: nat) -> Seq<u8>
    decreases n,
{
    if n == 0 {
        Seq::empty()
    } else {
        seq![126u8, 100u8, 105u8, 118u8, 123u8] + nested_divs((n - 1) as nat) + seq![125u8]
    }
}

/// The chain of `n` nested div elements, each without attributes and, but
/// for the innermost, with its successor as only child.
pub open spec fn div_chain(n: nat) -> SpecNode
    decreases n,
{
    if n <= 1 {
        SpecNode::Element { kind: ElementKind::Div, attributes: Map::empty(), content: Seq::empty() }
    } else {
        SpecNode::Element {
            kind: ElementKind::Div,
            attributes: Map::empty(),
            content: seq![div_chain((n - 1) as nat)],
        }
    }
}

/// The chain of `n` nested divs is `n` deep.
pub proof fn lemma_div_chain_depth(n: nat)
    requires
        n >= 1,
    ensures
        crate::node::spec_depth(div_chain(n)) == n,
    decreases n,
{
    if n > 1 {
        lemma_div_chain_depth((n - 1) as nat);
        let content = seq![div_chain((n - 1) as nat)];
        assert(crate::node::depth_from(content, 1) == 0);
        assert(crate::node::depth_from(content, 0) == n - 1);
    } else {
        assert(crate::node::depth_from(Seq::<SpecNode>::empty(), 0) == 0);
    }
}

/// The length of the nested input.
proof fn lemma_nested_divs_len(n: nat)
    ensures
        nested_divs(n).len() == 6 * n,
    decreases n,
{
    if n > 0 {
        lemma_nested_divs_len((n - 1) as nat);
    }
}

/// The bytes of the k-th `~div{` group of the nested input.
proof fn lemma_nested_divs_at(n: nat, k: int)
    requires
        0 <= k < n,
    ensures
        nested_divs(n)[5 * k] == 126,
        nested_divs(n)[5 * k + 1] == 100,
        nested_divs(n)[5 * k + 2] == 105,
        nested_divs(n)[5 * k + 3] == 118,
        nested_divs(n)[5 * k + 4] == 123,
    decreases n,
{
    lemma_nested_divs_len(n);
    lemma_nested_divs_len((n - 1) as nat);
    if k > 0 {
        lemma_nested_divs_at((n - 1) as nat, k - 1);
    }
}

/// The closing braces of the nested input.
proof fn lemma_nested_divs_brace(n: nat, j: int)
    requires
        5 * n <= j < 6 * n,
    ensures
        nested_divs(n)[j] == 125,
    decreases n,
{
    lemma_nested_divs_len(n);
    lemma_nested_divs_len((n - 1) as nat);
    if j < 6 * n - 1 {
        lemma_nested_divs_brace((n - 1) as nat, j - 5);
    }
}

/// Parsing the element that opens at position `5 * k` of the nested input:
/// it closes with its matching brace and yields the chain of the remaining
/// depth.
proof fn lemma_nested_element(n: nat, k: int)
    requires
        1 <= n,
        0 <= k < n,
    ensures
        spec_parse_element(nested_divs(n), 5 * k) == Ok::<(SpecNode, int), ParseError>(
            (div_chain((n - k) as nat), 6 * n - k),
        ),
    decreases n - k,
{
    let s = nested_divs(n);
    let pos = 5 * k;
    lemma_nested_divs_len(n);
    lemma_nested_divs_at(n, k);
    assert(spec_scan_word(s, pos + 4) == pos + 4);
    assert(spec_scan_word(s, pos + 3) == pos + 4);
    assert(spec_scan_word(s, pos + 2) == pos + 4);
    assert(spec_scan_word(s, pos + 1) == pos + 4);
    assert(s.subrange(pos + 1, pos + 4) =~= seq![100u8, 105u8, 118u8]);
    assert(spec_kind_of_tag(s.subrange(pos + 1, pos + 4)) == Some(ElementKind::Div));
    assert(spec_skip_ws(s, pos + 4) == pos + 4);
    if k == n - 1 {
        lemma_nested_divs_brace(n, pos + 5);
        assert(spec_parse_children(s, pos + 5, Seq::empty()) == Ok::<
            (Seq<SpecNode>, int),
            ParseError,
        >((Seq::empty(), pos + 5)));
        assert(spec_parse_block(s, pos + 4, ElementKind::Div, attrs_empty()) == Ok::<
            (SpecNode, int),
            ParseError,
        >((div_chain(1), pos + 6)));
    } else {
        lemma_nested_divs_at(n, k + 1);
        lemma_nested_element(n, k + 1);
        lemma_nested_divs_brace(n, 6 * n - k - 1);
        let child = div_chain((n - k - 1) as nat);
        assert(Seq::<SpecNode>::empty().push(child) =~= seq![child]);
        assert(spec_parse_children(s, 6 * n - k - 1, seq![child]) == Ok::<
            (Seq<SpecNode>, int),
            ParseError,
        >((seq![child], 6 * n - k - 1)));
        assert(spec_parse_children(s, pos + 5, Seq::empty()) == Ok::<
            (Seq<SpecNode>, int),
            ParseError,
        >((seq![child], 6 * n - k - 1)));
        assert(spec_parse_block(s, pos + 4, ElementKind::Div, attrs_empty()) == Ok::<
            (SpecNode, int),
            ParseError,
        >((div_chain((n - k) as nat), 6 * n - k)));
    }
}

/// For every depth `n`, the uniformly nested input of `n` div blocks parses
/// to the `n`-deep chain of empty div elements — a tree of nesting depth
/// exactly `n`.
pub proof fn lemma_nesting_depth(n: nat)
    requires
        n >= 1,
    ensures
        spec_parse(nested_divs(n)) == Ok::<SpecNode, ParseError>(div_chain(n)),
        crate::node::spec_depth(div_chain(n)) == n,
{
    let s = nested_divs(n);
    lemma_nested_divs_len(n);
    lemma_nested_divs_at(n, 0);
    assert(spec_skip_ws(s, 0) == 0);
    lemma_nested_element(n, 0);
    assert(spec_skip_ws(s, 6 * n as int) == 6 * n);
    lemma_div_chain_depth(n);
}

/// Removing a closing brace from the nested input leaves an unterminated
/// block: since all its closing braces are alike, the input with any one of
/// them removed is `nested_divs(n).drop_last()`, and parsing it fails with
/// `UnterminatedContent` at the end of input.
pub proof fn lemma_nesting_unclosed(n: nat)
    requires
        n >= 1,
    ensures
        spec_parse(nested_divs(n).drop_last()) == Err::<SpecNode, ParseError>(
            ParseError::UnterminatedContent { pos: (6 * n - 1) as usize },
        ),
{
    let s = nested_divs(n).drop_last();
    lemma_nested_divs_len(n);
    lemma_nested_divs_at(n, 0);
    assert(spec_skip_ws(s, 0) == 0);
    if n == 1 {
        assert(spec_scan_word(s, 4) == 4);
        assert(spec_scan_word(s, 3) == 4);
        assert(spec_scan_word(s, 2) == 4);
        assert(spec_scan_word(s, 1) == 4);
        assert(s.subrange(1, 4) =~= seq![100u8, 105u8, 118u8]);
        assert(spec_kind_of_tag(s.subrange(1, 4)) == Some(ElementKind::Div));
        assert(spec_skip_ws(s, 4) == 4);
        assert(spec_parse_children(s, 5, Seq::empty()) == Err::<(Seq<SpecNode>, int), ParseError>(
            ParseError::UnterminatedContent { pos: 5 as usize },
        ));
    } else {
        lemma_nested_unclosed_element(n, 1);
        lemma_nested_divs_at(n, 1);
        assert(spec_scan_word(s, 4) == 4);
        assert(spec_scan_word(s, 3) == 4);
        assert(spec_scan_word(s, 2) == 4);
        assert(spec_scan_word(s, 1) == 4);
        assert(s.subrange(1, 4) =~= seq![100u8, 105u8, 118u8]);
        assert(spec_kind_of_tag(s.subrange(1, 4)) == Some(ElementKind::Div));
        assert(spec_skip_ws(s, 4) == 4);
        let child = div_chain((n - 1) as nat);
        assert(spec_parse_children(s, 6 * n - 1, Seq::empty().push(child)) == Err::<
            (Seq<SpecNode>, int),
            ParseError,
        >(ParseError::UnterminatedContent { pos: (6 * n - 1) as usize }));
    }
}

/// In the nested input with its last brace removed, every element but the
/// outermost still finds a matching brace; the element opening at `5 * k`
/// (for `k` at least 1) parses as in the complete input, one brace earlier.
proof fn lemma_nested_unclosed_element(n: nat, k: int)
    requires
        2 <= n,
        1 <= k < n,
    ensures
        spec_parse_element(nested_divs(n).drop_last(), 5 * k) == Ok::<
            (SpecNode, int),
            ParseError,
        >((div_chain((n - k) as nat), 6 * n - k)),
    decreases n - k,
{
    let s = nested_divs(n).drop_last();
    let pos = 5 * k;
    lemma_nested_divs_len(n);
    lemma_nested_divs_at(n, k);
    assert(spec_scan_word(s, pos + 4) == pos + 4);
    assert(spec_scan_word(s, pos + 3) == pos + 4);
    assert(spec_scan_word(s, pos + 2) == pos + 4);
    assert(spec_scan_word(s, pos + 1) == pos + 4);
    assert(s.subrange(pos + 1, pos + 4) =~= seq![100u8, 105u8, 118u8]);
    assert(spec_kind_of_tag(s.subrange(pos + 1, pos + 4)) == Some(ElementKind::Div));
    assert(spec_skip_ws(s, pos + 4) == pos + 4);
    if k == n - 1 {
        lemma_nested_divs_brace(n, pos + 5);
        assert(spec_parse_children(s, pos + 5, Seq::empty()) == Ok::<
            (Seq<SpecNode>, int),
            ParseError,
        >((Seq::empty(), pos + 5)));
        assert(spec_parse_block(s, pos + 4, ElementKind::Div, attrs_empty()) == Ok::<
            (SpecNode, int),
            ParseError,
        >((div_chain(1), pos + 6)));
    } else {
        lemma_nested_divs_at(n, k + 1);
        lemma_nested_unclosed_element(n, k + 1);
        lemma_nested_divs_brace(n, 6 * n - k - 1);
        let child = div_chain((n - k - 1) as nat);
        assert(Seq::<SpecNode>::empty().push(child) =~= seq![child]);
        assert(spec_parse_children(s, 6 * n - k - 1, seq![child]) == Ok::<
            (Seq<SpecNode>, int),
            ParseError,
        >((seq![child], 6 * n - k - 1)));
        assert(spec_parse_children(s, pos + 5, Seq::empty()) == Ok::<
            (Seq<SpecNode>, int),
            ParseError,
        >((seq![child], 6 * n - k - 1)));
        assert(spec_parse_block(s, pos + 4, ElementKind::Div, attrs_empty()) == Ok::<
            (SpecNode, int),
            ParseError,
        >((div_chain((n - k) as nat), 6 * n - k)));
    }
}

} // verus!
