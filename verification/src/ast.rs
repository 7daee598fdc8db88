//! The syntax tree: positions, ranges, node payloads and nodes, each with the
//! mathematical model that contracts speak of.

use vstd::prelude::*;
use vstd::string::StringExecFns;

verus! {

/// Model of a cursor position: 1-based line and column, 0-based offset,
/// all counted in characters.
pub struct Position {
    pub line: nat,
    pub column: nat,
    pub offset: nat,
}

impl Position {
    /// Where every parse starts.
    pub open spec fn origin() -> Position {
        Position { line: 1, column: 1, offset: 0 }
    }

    /// `self` does not lie behind `other`: neither in the lexicographic
    /// order on `(line, column)` nor by offset.
    pub open spec fn le(self, other: Position) -> bool {
        &&& self.line < other.line || (self.line == other.line && self.column <= other.column)
        &&& self.offset <= other.offset
    }

    /// The position `n` characters further in the text, line and column kept.
    pub open spec fn forward(self, n: nat) -> Position {
        Position { offset: self.offset + n, ..self }
    }

    /// The position `n` characters to the right on the same line.
    pub open spec fn right(self, n: nat) -> Position {
        Position { column: self.column + n, offset: self.offset + n, ..self }
    }

    /// The start of the line `n` lines below, `n` characters further in the text.
    pub open spec fn down(self, n: nat) -> Position {
        Position { line: self.line + n, column: 1, offset: self.offset + n }
    }
}

/// Model of a range: the span between two positions.
pub struct Span {
    pub begin: Position,
    pub end: Position,
}

impl Span {
    /// `begin` does not lie behind `end`.
    pub open spec fn ordered(self) -> bool {
        self.begin.le(self.end)
    }

    /// `inner` lies between `begin` and `end`.
    pub open spec fn encloses(self, inner: Span) -> bool {
        self.begin.le(inner.begin) && inner.end.le(self.end)
    }
}

/// Model of a node's payload.
pub struct Element {
    pub kind: ASTType,
    pub meta: ASTMetaData,
    pub value: Seq<char>,
    pub raw_value: Seq<char>,
    pub range: Span,
}

/// `body` between an opening and a closing tag of the given name.
pub open spec fn tagged(name: Seq<char>, body: Seq<char>) -> Seq<char> {
    "<"@ + name + ">"@ + body + "</"@ + name + ">"@
}

/// Model of a node: its payload and the models of its children, in order.
pub struct Tree {
    pub elm: Element,
    pub children: Seq<Tree>,
}

impl Tree {
    /// A node without children.
    pub open spec fn leaf(elm: Element) -> Tree {
        Tree { elm, children: Seq::empty() }
    }

    /// The same payload over `children` behind the present ones.
    pub open spec fn with_more(self, children: Seq<Tree>) -> Tree {
        Tree { elm: self.elm, children: self.children + children }
    }

    /// Every node's range is ordered and encloses the ranges of its children.
    pub open spec fn well_ranged(self) -> bool
        decreases self,
    {
        &&& self.elm.range.ordered()
        &&& forall|i: int|
            0 <= i < self.children.len() ==> {
                &&& self.elm.range.encloses((#[trigger] self.children[i]).elm.range)
                &&& self.children[i].well_ranged()
            }
    }

    /// The tagged rendering of the tree.
    pub open spec fn render(self) -> Seq<char>
        decreases self, self.children.len() + 1,
    {
        match self.elm.kind {
            ASTType::Document => tagged("document"@, self.render_children(0)),
            ASTType::Paragraph => tagged("paragraph"@, self.render_children(0)),
            ASTType::Headers => tagged("header"@, self.render_children(0)),
            ASTType::Text => "<text>"@ + self.elm.value + "</text>"@,
            ASTType::Emphasis => tagged("emphasis"@, self.render_children(0)),
            ASTType::SoftBreak => "<softbreak />"@,
            ASTType::HardBreak => "<hardbreak />"@,
        }
    }

    /// The renderings of the children from index `from` on, one after another.
    pub open spec fn render_children(self, from: nat) -> Seq<char>
        decreases self, self.children.len() - from,
    {
        if from < self.children.len() {
            self.children[from as int].render() + self.render_children(from + 1)
        } else {
            Seq::empty()
        }
    }
}

/// The children from `from` on render alike in two trees with the same children.
proof fn lemma_render_children_alike(a: Tree, b: Tree, from: nat)
    requires
        a.children == b.children,
    ensures
        a.render_children(from) == b.render_children(from),
    decreases a.children.len() - from,
{
    if from < a.children.len() {
        lemma_render_children_alike(a, b, from + 1);
    }
}

/// The rendering of a node depends on its kind and its children alone, and
/// for a text node on its value: two nodes that agree in these render
/// alike, whatever their ranges, raw values and levels.
pub proof fn lemma_render_by_kind_and_children(a: Tree, b: Tree)
    requires
        a.elm.kind == b.elm.kind,
        a.children == b.children,
        a.elm.kind == ASTType::Text ==> a.elm.value == b.elm.value,
    ensures
        a.render() == b.render(),
{
    lemma_render_children_alike(a, b, 0);
}

#[derive(Debug, Clone, Copy, PartialEq, Eq, Structural)]
pub enum ASTType {
    Document,
    Paragraph,
    Headers,
    Text,
    Emphasis,
    SoftBreak,
    HardBreak,
}

impl Default for ASTType {
    fn default() -> (kind: ASTType)
        ensures
            kind == ASTType::Document,
    {
        ASTType::Document
    }
}

#[derive(Debug, Clone, Copy, PartialEq, Eq, Structural)]
pub enum ASTMetaData {
    Nil,
    H1,
    H2,
    H3,
    H4,
    H5,
    H6,
}

impl Default for ASTMetaData {
    fn default() -> (meta: ASTMetaData)
        ensures
            meta == ASTMetaData::Nil,
    {
        ASTMetaData::Nil
    }
}

#[derive(Debug, Clone, Copy, PartialEq, Eq, Structural)]
pub struct ASTPos {
    line: u32,
    ch: u32,
    pos: u32,
}

impl View for ASTPos {
    type V = Position;

    closed spec fn view(&self) -> Position {
        Position { line: self.line as nat, column: self.ch as nat, offset: self.pos as nat }
    }
}

impl Default for ASTPos {
    fn default() -> (p: ASTPos)
        ensures
            p@ == (Position { line: 0, column: 0, offset: 0 }),
    {
        ASTPos { line: 0, ch: 0, pos: 0 }
    }
}

impl ASTPos {
    pub fn new(line: u32, ch: u32, pos: u32) -> (p: ASTPos)
        ensures
            p@ == (Position { line: line as nat, column: ch as nat, offset: pos as nat }),
    {
        ASTPos { line, ch, pos }
    }

    pub fn increase_pos_n(&mut self, n: u32)
        requires
            old(self)@.offset + n <= u32::MAX,
        ensures
            final(self)@ == old(self)@.forward(n as nat),
    {
        let a = self.pos();
        self.set_pos(a + n);
    }

    pub fn increase_line_n(&mut self, n: u32)
        requires
            old(self)@.line + n <= u32::MAX,
            old(self)@.offset + n <= u32::MAX,
        ensures
            final(self)@ == old(self)@.down(n as nat),
    {
        let a = self.line();
        self.set_line(a + n);
        self.set_ch(1);
        self.increase_pos_n(n);
    }

    pub fn increase_ch_n(&mut self, n: u32)
        requires
            old(self)@.column + n <= u32::MAX,
            old(self)@.offset + n <= u32::MAX,
        ensures
            final(self)@ == old(self)@.right(n as nat),
    {
        let a = self.ch();
        self.set_ch(a + n);
        self.increase_pos_n(n);
    }

    pub fn set_pos(&mut self, n: u32)
        ensures
            final(self)@ == (Position { offset: n as nat, ..old(self)@ }),
    {
        self.pos = n;
    }

    pub fn set_line(&mut self, n: u32)
        ensures
            final(self)@ == (Position { line: n as nat, ..old(self)@ }),
    {
        self.line = n;
    }

    pub fn set_ch(&mut self, n: u32)
        ensures
            final(self)@ == (Position { column: n as nat, ..old(self)@ }),
    {
        self.ch = n;
    }

    pub fn pos(&self) -> (n: u32)
        ensures
            n == self@.offset,
    {
        self.pos
    }

    pub fn line(&self) -> (n: u32)
        ensures
            n == self@.line,
    {
        self.line
    }

    pub fn ch(&self) -> (n: u32)
        ensures
            n == self@.column,
    {
        self.ch
    }
}

#[derive(Debug, Clone, Copy, PartialEq, Eq, Structural)]
pub struct ASTRange {
    pub begin: ASTPos,
    pub end: ASTPos,
}

impl View for ASTRange {
    type V = Span;

    open spec fn view(&self) -> Span {
        Span { begin: self.begin@, end: self.end@ }
    }
}

impl Default for ASTRange {
    fn default() -> (r: ASTRange)
        ensures
            r.begin@ == (Position { line: 0, column: 0, offset: 0 }),
            r.end@ == (Position { line: 0, column: 0, offset: 0 }),
    {
        ASTRange { begin: ASTPos::default(), end: ASTPos::default() }
    }
}

impl ASTRange {
    pub fn new(begin: ASTPos, end: ASTPos) -> (r: ASTRange)
        ensures
            r.begin == begin,
            r.end == end,
    {
        ASTRange { begin, end }
    }
}

#[derive(Debug, PartialEq)]
pub struct ASTElm {
    pub elm_type: ASTType,
    pub elm_meta: ASTMetaData,
    pub value: String,
    pub raw_value: String,
    pub range: ASTRange,
}

impl View for ASTElm {
    type V = Element;

    open spec fn view(&self) -> Element {
        Element {
            kind: self.elm_type,
            meta: self.elm_meta,
            value: self.value@,
            raw_value: self.raw_value@,
            range: self.range@,
        }
    }
}

impl Default for ASTElm {
    fn default() -> (elm: ASTElm)
        ensures
            elm@ == (Element {
                kind: ASTType::Document,
                meta: ASTMetaData::Nil,
                value: Seq::empty(),
                raw_value: Seq::empty(),
                range: Span {
                    begin: Position { line: 0, column: 0, offset: 0 },
                    end: Position { line: 0, column: 0, offset: 0 },
                },
            }),
    {
        ASTElm {
            elm_type: ASTType::default(),
            elm_meta: ASTMetaData::default(),
            value: String::new(),
            raw_value: String::new(),
            range: ASTRange::default(),
        }
    }
}

/// The text of a break node, whatever line ending it stands for.
pub open spec fn break_text() -> Seq<char> {
    seq!['\n']
}

impl ASTElm {
    fn build(elm_type: ASTType, elm_meta: ASTMetaData, value: &str, raw_value: &str, range: ASTRange) -> (elm: ASTElm)
        ensures
            elm@ == (Element {
                kind: elm_type,
                meta: elm_meta,
                value: value@,
                raw_value: raw_value@,
                range: range@,
            }),
    {
        ASTElm {
            elm_type,
            elm_meta,
            value: String::from_str(value),
            raw_value: String::from_str(raw_value),
            range,
        }
    }

    pub fn new_document() -> (elm: ASTElm)
        ensures
            elm@ == (Element {
                kind: ASTType::Document,
                meta: ASTMetaData::Nil,
                value: Seq::empty(),
                raw_value: Seq::empty(),
                range: Span {
                    begin: Position { line: 0, column: 0, offset: 0 },
                    end: Position { line: 0, column: 0, offset: 0 },
                },
            }),
    {
        ASTElm::default()
    }

    pub fn new_paragraph(value: &str, raw_value: &str, range: ASTRange) -> (elm: ASTElm)
        ensures
            elm@ == (Element {
                kind: ASTType::Paragraph,
                meta: ASTMetaData::Nil,
                value: value@,
                raw_value: raw_value@,
                range: range@,
            }),
    {
        ASTElm::build(ASTType::Paragraph, ASTMetaData::Nil, value, raw_value, range)
    }

    pub fn new_headers(level: ASTMetaData, value: &str, raw_value: &str, range: ASTRange) -> (elm: ASTElm)
        ensures
            elm@ == (Element {
                kind: ASTType::Headers,
                meta: level,
                value: value@,
                raw_value: raw_value@,
                range: range@,
            }),
    {
        ASTElm::build(ASTType::Headers, level, value, raw_value, range)
    }

    pub fn new_text(value: &str, range: ASTRange) -> (elm: ASTElm)
        ensures
            elm@ == (Element {
                kind: ASTType::Text,
                meta: ASTMetaData::Nil,
                value: value@,
                raw_value: value@,
                range: range@,
            }),
    {
        ASTElm::build(ASTType::Text, ASTMetaData::Nil, value, value, range)
    }

    pub fn new_emphasis(value: &str, raw_value: &str, range: ASTRange) -> (elm: ASTElm)
        ensures
            elm@ == (Element {
                kind: ASTType::Emphasis,
                meta: ASTMetaData::Nil,
                value: value@,
                raw_value: raw_value@,
                range: range@,
            }),
    {
        ASTElm::build(ASTType::Emphasis, ASTMetaData::Nil, value, raw_value, range)
    }

    pub fn new_softbreak(range: ASTRange) -> (elm: ASTElm)
        ensures
            elm@ == (Element {
                kind: ASTType::SoftBreak,
                meta: ASTMetaData::Nil,
                value: break_text(),
                raw_value: break_text(),
                range: range@,
            }),
    {
        proof {
            reveal_strlit("\n");
            assert("\n"@ =~= break_text());
        }
        ASTElm::build(ASTType::SoftBreak, ASTMetaData::Nil, "\n", "\n", range)
    }

    pub fn new_hardbreak(range: ASTRange) -> (elm: ASTElm)
        ensures
            elm@ == (Element {
                kind: ASTType::HardBreak,
                meta: ASTMetaData::Nil,
                value: break_text(),
                raw_value: break_text(),
                range: range@,
            }),
    {
        proof {
            reveal_strlit("\n");
            assert("\n"@ =~= break_text());
        }
        ASTElm::build(ASTType::HardBreak, ASTMetaData::Nil, "\n", "\n", range)
    }
}

#[derive(Debug, PartialEq)]
pub struct ASTNode {
    data: ASTElm,
    children: Vec<ASTNode>,
}

impl View for ASTNode {
    type V = Tree;

    closed spec fn view(&self) -> Tree {
        self.model()
    }
}

/// The models of a sequence of nodes.
pub open spec fn trees(nodes: Seq<ASTNode>) -> Seq<Tree> {
    Seq::new(nodes.len(), |i: int| nodes[i]@)
}

impl ASTNode {
    /// The payload's model over the children's models.
    spec fn model(&self) -> Tree
        decreases self,
    {
        Tree {
            elm: self.data@,
            children: Seq::new(
                self.children@.len(),
                |i: int|
                    if 0 <= i < self.children.len() {
                        self.children[i].model()
                    } else {
                        arbitrary()
                    },
            ),
        }
    }

    pub fn new(v: ASTElm) -> (node: ASTNode)
        ensures
            node@ == Tree::leaf(v@),
    {
        let node = ASTNode { data: v, children: Vec::new() };
        assert(node@.children =~= Seq::empty());
        node
    }

    pub fn append(&mut self, v: ASTElm)
        ensures
            final(self)@ == old(self)@.with_more(seq![Tree::leaf(v@)]),
    {
        let node = ASTNode::new(v);
        self.append_node(node);
    }

    pub fn append_node(&mut self, node: ASTNode)
        ensures
            final(self)@ == old(self)@.with_more(seq![node@]),
    {
        self.children.push(node);
        proof {
            let grown = old(self)@.children + seq![node@];
            assert(self@.children.len() == grown.len());
            assert forall|i: int| 0 <= i < grown.len() implies self@.children[i] == grown[i] by {
                if i < old(self).children.len() {
                    assert(self.children[i] == old(self).children[i]);
                }
            }
            assert(self@.children =~= grown);
        }
    }

    pub fn append_node_from_vec(&mut self, nodes: Vec<ASTNode>)
        ensures
            final(self)@ == old(self)@.with_more(trees(nodes@)),
    {
        let mut nodes = nodes;
        let ghost all = nodes@;
        self.children.append(&mut nodes);
        proof {
            let grown = old(self)@.children + trees(all);
            assert(self@.children.len() == grown.len());
            assert forall|i: int| 0 <= i < grown.len() implies self@.children[i] == grown[i] by {
                if i < old(self).children.len() {
                    assert(self.children[i] == old(self).children[i]);
                } else {
                    assert(self.children[i] == all[i - old(self).children.len()]);
                }
            }
            assert(self@.children =~= grown);
        }
    }

    //
    // --- setter, getter ---
    //
    /// The children, in order.
    pub fn children(&self) -> (children: &Vec<ASTNode>)
        ensures
            trees(children@) == self@.children,
    {
        assert(trees(self.children@) =~= self@.children);
        &self.children
    }

    pub fn node_type(&self) -> (kind: &ASTType)
        ensures
            *kind == self@.elm.kind,
    {
        &self.data.elm_type
    }

    pub fn meta(&self) -> (meta: &ASTMetaData)
        ensures
            *meta == self@.elm.meta,
    {
        &self.data.elm_meta
    }

    pub fn value(&self) -> (value: &String)
        ensures
            value@ == self@.elm.value,
    {
        &self.data.value
    }

    pub fn raw_value(&self) -> (raw_value: &String)
        ensures
            raw_value@ == self@.elm.raw_value,
    {
        &self.data.raw_value
    }

    pub fn range(&self) -> (range: &ASTRange)
        ensures
            range@ == self@.elm.range,
    {
        &self.data.range
    }

    pub fn node_type_mut(&mut self) -> (kind: &mut ASTType)
        ensures
            *kind == old(self)@.elm.kind,
            final(self)@ == (Tree {
                elm: Element { kind: *final(kind), ..old(self)@.elm },
                children: old(self)@.children,
            }),
    {
        &mut self.data.elm_type
    }

    pub fn meta_mut(&mut self) -> (meta: &mut ASTMetaData)
        ensures
            *meta == old(self)@.elm.meta,
            final(self)@ == (Tree {
                elm: Element { meta: *final(meta), ..old(self)@.elm },
                children: old(self)@.children,
            }),
    {
        &mut self.data.elm_meta
    }

    pub fn value_mut(&mut self) -> (value: &mut String)
        ensures
            value@ == old(self)@.elm.value,
            final(self)@ == (Tree {
                elm: Element { value: final(value)@, ..old(self)@.elm },
                children: old(self)@.children,
            }),
    {
        &mut self.data.value
    }

    pub fn raw_value_mut(&mut self) -> (raw_value: &mut String)
        ensures
            raw_value@ == old(self)@.elm.raw_value,
            final(self)@ == (Tree {
                elm: Element { raw_value: final(raw_value)@, ..old(self)@.elm },
                children: old(self)@.children,
            }),
    {
        &mut self.data.raw_value
    }

    pub fn range_mut(&mut self) -> (range: &mut ASTRange)
        ensures
            range@ == old(self)@.elm.range,
            final(self)@ == (Tree {
                elm: Element { range: final(range)@, ..old(self)@.elm },
                children: old(self)@.children,
            }),
    {
        &mut self.data.range
    }

    pub fn set_node_type(&mut self, v: ASTType)
        ensures
            final(self)@ == (Tree {
                elm: Element { kind: v, ..old(self)@.elm },
                children: old(self)@.children,
            }),
    {
        *self.node_type_mut() = v;
    }

    pub fn set_meta(&mut self, v: ASTMetaData)
        ensures
            final(self)@ == (Tree {
                elm: Element { meta: v, ..old(self)@.elm },
                children: old(self)@.children,
            }),
    {
        *self.meta_mut() = v;
    }

    pub fn set_value(&mut self, v: String)
        ensures
            final(self)@ == (Tree {
                elm: Element { value: v@, ..old(self)@.elm },
                children: old(self)@.children,
            }),
    {
        *self.value_mut() = v;
    }

    pub fn set_raw_value(&mut self, v: String)
        ensures
            final(self)@ == (Tree {
                elm: Element { raw_value: v@, ..old(self)@.elm },
                children: old(self)@.children,
            }),
    {
        *self.raw_value_mut() = v;
    }

    pub fn set_range(&mut self, v: ASTRange)
        ensures
            final(self)@ == (Tree {
                elm: Element { range: v@, ..old(self)@.elm },
                children: old(self)@.children,
            }),
    {
        *self.range_mut() = v;
    }

    //
    // --- rendering ---
    //
    pub fn render_debug_format(&self) -> (out: String)
        ensures
            out@ == self@.render(),
    {
        self._render_debug_format(self)
    }

    fn _render_tag(&self, tagname: &str, node: &ASTNode) -> (out: String)
        ensures
            out@ == tagged(tagname@, node@.render_children(0)),
        decreases node, 0nat,
    {
        let mut result = String::from_str("<");
        result.append(tagname);
        result.append(">");
        let ghost open = result@;
        let mut i: usize = 0;
        while i < node.children.len()
            invariant
                i <= node.children.len(),
                result@ + node@.render_children(i as nat) == open + node@.render_children(0),
            decreases node.children.len() - i,
        {
            let child = self._render_debug_format(&node.children[i]);
            proof {
                let before = result@;
                let piece = node@.children[i as int].render();
                let later = node@.render_children((i + 1) as nat);
                assert(child@ == piece);
                assert((before + piece) + later =~= before + (piece + later));
            }
            result.append(child.as_str());
            i = i + 1;
        }
        proof {
            assert(result@ + Seq::<char>::empty() =~= result@);
        }
        result.append("</");
        result.append(tagname);
        result.append(">");
        proof {
            assert(result@ =~= tagged(tagname@, node@.render_children(0)));
        }
        result
    }

    fn _render_debug_format(&self, node: &ASTNode) -> (out: String)
        ensures
            out@ == node@.render(),
        decreases node, 1nat,
    {
        match node.node_type() {
            ASTType::Document => self._render_tag("document", node),
            ASTType::Paragraph => self._render_tag("paragraph", node),
            ASTType::Headers => self._render_tag("header", node),
            ASTType::Text => {
                let mut result = String::from_str("<text>");
                result.append(node.value().as_str());
                result.append("</text>");
                result
            },
            ASTType::Emphasis => self._render_tag("emphasis", node),
            ASTType::SoftBreak => String::from_str("<softbreak />"),
            ASTType::HardBreak => String::from_str("<hardbreak />"),
        }
    }
}

} // verus!
