//! Concrete syntax trees as plain values. The `tree-sitter` parser builds the tree; this module
//! holds it as `SyntaxNode` values that verified code can read, checks that its byte offsets fit
//! the source, and offers the lookups the comment and docstring extractors need.
use vstd::prelude::*;
use vstd::string::*;
use vstd::utf8::*;
use crate::text::{chars_of, same_chars};
use crate::types::Language;

verus! {

broadcast use vstd::seq::group_seq_axioms;

/// One node of a concrete syntax tree, as the parser reports it.
#[derive(Debug)]
pub struct SyntaxNode {
    /// Grammar kind (`module`, `string`, `comment`, `:`, ...).
    pub kind: String,
    /// The field of its parent that this node fills (`body`, `name`, ...), if any.
    pub field: Option<String>,
    /// A named node (as opposed to anonymous punctuation or keywords).
    pub named: bool,
    /// This node or a descendant is an error or a missing node.
    pub has_error: bool,
    /// Byte range in the source.
    pub start: usize,
    pub end: usize,
    /// 0-based rows of the first and last byte.
    pub start_row: usize,
    pub end_row: usize,
    pub children: Vec<SyntaxNode>,
}

#[verifier::external_type_specification]
#[verifier::external_body]
pub struct ExTreeSitterNode<'a>(tree_sitter::Node<'a>);

/// The tree that the `tree-sitter` grammar of `lang` builds for `src`; `None` when the parser
/// gives no tree.
pub uninterp spec fn parsed_tree(src: Seq<char>, lang: Language) -> Option<SyntaxNode>;

/// Parses `src` with the `tree-sitter` grammar of `lang` (`tree_sitter::Parser::parse`) and
/// copies the tree into `SyntaxNode` values. Trusted: the tree depends on the source and the
/// language alone, which the name `parsed_tree` records; nothing is claimed of its shape.
#[verifier::external_body]
pub(crate) fn parse_tree(src: &str, lang: Language) -> (r: Option<SyntaxNode>)
    ensures
        r == parsed_tree(src@, lang),
{
    let grammar: tree_sitter::Language = match lang {
        Language::Python => tree_sitter_python::LANGUAGE.into(),
        Language::JavaScript => tree_sitter_javascript::LANGUAGE.into(),
        Language::TypeScript => tree_sitter_typescript::LANGUAGE_TYPESCRIPT.into(),
        Language::Tsx => tree_sitter_typescript::LANGUAGE_TSX.into(),
        Language::Yaml => tree_sitter_yaml::LANGUAGE.into(),
    };
    let mut parser = tree_sitter::Parser::new();
    parser.set_language(&grammar).ok()?;
    let tree = parser.parse(src, None)?;
    Some(copy_node(tree.root_node(), None))
}

/// Copies a `tree_sitter::Node` and its descendants, with the field name it fills, into a
/// `SyntaxNode`, reading `kind`, `is_named`, `has_error`, the byte range and the rows. Trusted
/// conversion; nothing is stated of the result.
#[verifier::external_body]
fn copy_node(node: tree_sitter::Node, field: Option<&str>) -> SyntaxNode {
    let mut children = Vec::new();
    let mut cursor = node.walk();
    let mut more = cursor.goto_first_child();
    while more {
        children.push(copy_node(cursor.node(), cursor.field_name()));
        more = cursor.goto_next_sibling();
    }
    let (start_row, end_row) = (node.start_position().row, node.end_position().row);
    SyntaxNode {
        kind: node.kind().to_string(), field: field.map(str::to_string), named: node.is_named(),
        has_error: node.has_error(), start: node.start_byte(), end: node.end_byte(), start_row,
        end_row, children,
    }
}

/// Byte `i` of the source starts a character or ends the source.
pub open spec fn boundary(b: Seq<u8>, i: int) -> bool {
    i == b.len() || (0 <= i < b.len() && !is_continuation_byte(b[i]))
}

/// Every node's range lies within its parent's and within the source, starts and ends on
/// character boundaries, and its rows are ordered and bounded by the source length.
pub open spec fn well_placed(n: SyntaxNode, b: Seq<u8>) -> bool
    decreases n,
{
    &&& n.start <= n.end <= b.len()
    &&& boundary(b, n.start as int)
    &&& boundary(b, n.end as int)
    &&& n.start_row <= n.end_row <= b.len()
    &&& forall|i: int|
        0 <= i < n.children@.len() ==> {
            &&& n.start <= (#[trigger] n.children@[i]).start
            &&& n.children@[i].end <= n.end
            &&& well_placed(n.children@[i], b)
        }
}

/// A well-placed node's own range facts, and those of each child.
pub proof fn lemma_placed(n: SyntaxNode, b: Seq<u8>)
    requires
        well_placed(n, b),
    ensures
        n.start <= n.end <= b.len(),
        boundary(b, n.start as int),
        boundary(b, n.end as int),
        n.start_row <= n.end_row <= b.len(),
        forall|i: int|
            0 <= i < n.children@.len() ==> {
                &&& n.start <= (#[trigger] n.children@[i]).start
                &&& n.children@[i].start <= n.children@[i].end
                &&& n.children@[i].end <= n.end
                &&& boundary(b, n.children@[i].start as int)
                &&& boundary(b, n.children@[i].end as int)
                &&& well_placed(n.children@[i], b)
            },
{
    assert forall|i: int| 0 <= i < n.children@.len() implies {
        &&& n.start <= (#[trigger] n.children@[i]).start
        &&& n.children@[i].start <= n.children@[i].end
        &&& n.children@[i].end <= n.end
        &&& boundary(b, n.children@[i].start as int)
        &&& boundary(b, n.children@[i].end as int)
        &&& well_placed(n.children@[i], b)
    } by {
        reveal_with_fuel(well_placed, 2);
    }
}

pub(crate) fn boundary_exec(bytes: &[u8], i: usize) -> (r: bool)
    ensures
        r == boundary(bytes@, i as int),
{
    i == bytes.len() || (i < bytes.len() && !(0x80u8 <= bytes[i] && bytes[i] <= 0xbfu8))
}

/// Checks `well_placed` for a tree.
pub fn check_placement(n: &SyntaxNode, bytes: &[u8]) -> (r: bool)
    ensures
        r == well_placed(*n, bytes@),
    decreases n,
{
    if !(n.start <= n.end && n.end <= bytes.len() && boundary_exec(bytes, n.start) && boundary_exec(
        bytes,
        n.end,
    ) && n.start_row <= n.end_row && n.end_row <= bytes.len()) {
        return false;
    }
    let mut i: usize = 0;
    while i < n.children.len()
        invariant
            0 <= i <= n.children@.len(),
            forall|k: int|
                0 <= k < i ==> {
                    &&& n.start <= (#[trigger] n.children@[k]).start
                    &&& n.children@[k].end <= n.end
                    &&& well_placed(n.children@[k], bytes@)
                },
        decreases n.children@.len() - i,
    {
        let c = &n.children[i];
        assert(decreases_to!(n => n.children));
        assert(decreases_to!(n.children => n.children@));
        assert(decreases_to!(n.children@ => n.children@[i as int]));
        if !(n.start <= c.start && c.end <= n.end && check_placement(c, bytes)) {
            return false;
        }
        i += 1;
    }
    true
}

/// The node is of the given kind.
pub open spec fn kind_is(n: SyntaxNode, k: Seq<char>) -> bool {
    n.kind@ == k
}

pub fn is_kind(n: &SyntaxNode, k: &str) -> (r: bool)
    ensures
        r == kind_is(*n, k@),
{
    same_chars(&chars_of(n.kind.as_str()), &chars_of(k))
}

/// The node fills the given field of its parent.
pub open spec fn fills(n: SyntaxNode, f: Seq<char>) -> bool {
    n.field matches Some(x) && x@ == f
}

/// Index of the first node that fills field `f`, if any.
pub open spec fn field_index(ns: Seq<SyntaxNode>, f: Seq<char>) -> Option<int>
    decreases ns.len(),
{
    if ns.len() == 0 {
        None
    } else if fills(ns[0], f) {
        Some(0)
    } else {
        match field_index(ns.drop_first(), f) {
            Some(i) => Some(i + 1),
            None => None,
        }
    }
}

proof fn lemma_field_index(ns: Seq<SyntaxNode>, f: Seq<char>, j: int)
    requires
        0 <= j <= ns.len(),
        forall|k: int| 0 <= k < j ==> !fills(#[trigger] ns[k], f),
    ensures
        j < ns.len() && fills(ns[j], f) ==> field_index(ns, f) == Some(j),
        j == ns.len() ==> field_index(ns, f) is None,
    decreases j,
{
    if j > 0 {
        assert forall|k: int| 0 <= k < j - 1 implies !fills(#[trigger] ns.drop_first()[k], f) by {
            assert(ns.drop_first()[k] == ns[k + 1]);
        }
        lemma_field_index(ns.drop_first(), f, j - 1);
        if j < ns.len() {
            assert(ns.drop_first()[j - 1] == ns[j]);
        }
    }
}

/// The index of the first child that fills field `f` (`Node::child_by_field_name`).
pub fn child_by_field(n: &SyntaxNode, f: &str) -> (r: Option<usize>)
    ensures
        match (r, field_index(n.children@, f@)) {
            (Some(i), Some(j)) => i == j && i < n.children@.len(),
            (None, None) => true,
            _ => false,
        },
{
    let fc = chars_of(f);
    let mut i: usize = 0;
    while i < n.children.len()
        invariant
            0 <= i <= n.children@.len(),
            fc@ == f@,
            forall|k: int| 0 <= k < i ==> !fills(#[trigger] n.children@[k], f@),
        decreases n.children@.len() - i,
    {
        let hit = match &n.children[i].field {
            Some(x) => same_chars(&chars_of(x.as_str()), &fc),
            None => false,
        };
        if hit {
            proof {
                lemma_field_index(n.children@, f@, i as int);
            }
            return Some(i);
        }
        i += 1;
    }
    proof {
        lemma_field_index(n.children@, f@, i as int);
    }
    None
}

} // verus!
