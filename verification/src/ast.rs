//! Typed views of syntax nodes: a view is a node of the kinds of one grammar
//! production, and finds its parts among the children of the node.

use vstd::prelude::*;
use crate::lexer::Token;
use crate::syntax_kind::SyntaxKind;
use crate::tree::{SyntaxElement, SyntaxNode};

verus! {

/// A group of node kinds that an accessor looks for.
#[derive(Clone, Copy, Debug, PartialEq, Eq, Structural)]
pub enum NodeClass {
    /// Nodes of one kind.
    Kind(SyntaxKind),
    /// Expressions.
    Expr,
    /// Type expressions.
    TypeExpr,
    /// Statements of a block.
    Stmt,
    /// Declarations of a module.
    Item,
    /// Any node.
    Any,
}

pub open spec fn is_expr_kind(k: SyntaxKind) -> bool {
    k == SyntaxKind::IDENT_EXPR || k == SyntaxKind::LITERAL_EXPR || k == SyntaxKind::PAREN_EXPR
        || k == SyntaxKind::LAMBDA_EXPR || k == SyntaxKind::BLOCK_EXPR || k
        == SyntaxKind::BINARY_EXPR
}

pub open spec fn is_type_expr_kind(k: SyntaxKind) -> bool {
    k == SyntaxKind::TYPE_IDENT || k == SyntaxKind::TYPE_ARROW || k == SyntaxKind::TYPE_PAREN
}

pub open spec fn is_stmt_kind(k: SyntaxKind) -> bool {
    k == SyntaxKind::EXPR_STMT || k == SyntaxKind::LET_STMT
}

pub open spec fn is_item_kind(k: SyntaxKind) -> bool {
    k == SyntaxKind::DEFINITION || k == SyntaxKind::OPEN || k == SyntaxKind::TYPE_DEFINITION
}

impl NodeClass {
    /// Whether a node of kind `k` belongs to the class.
    pub open spec fn has(self, k: SyntaxKind) -> bool {
        match self {
            NodeClass::Kind(kind) => k == kind,
            NodeClass::Expr => is_expr_kind(k),
            NodeClass::TypeExpr => is_type_expr_kind(k),
            NodeClass::Stmt => is_stmt_kind(k),
            NodeClass::Item => is_item_kind(k),
            NodeClass::Any => true,
        }
    }

    pub fn contains(self, k: SyntaxKind) -> (r: bool)
        ensures
            r == self.has(k),
    {
        match self {
            NodeClass::Kind(kind) => k == kind,
            NodeClass::Expr => k == SyntaxKind::IDENT_EXPR || k == SyntaxKind::LITERAL_EXPR || k
                == SyntaxKind::PAREN_EXPR || k == SyntaxKind::LAMBDA_EXPR || k
                == SyntaxKind::BLOCK_EXPR || k == SyntaxKind::BINARY_EXPR,
            NodeClass::TypeExpr => k == SyntaxKind::TYPE_IDENT || k == SyntaxKind::TYPE_ARROW || k
                == SyntaxKind::TYPE_PAREN,
            NodeClass::Stmt => k == SyntaxKind::EXPR_STMT || k == SyntaxKind::LET_STMT,
            NodeClass::Item => k == SyntaxKind::DEFINITION || k == SyntaxKind::OPEN || k
                == SyntaxKind::TYPE_DEFINITION,
            NodeClass::Any => true,
        }
    }
}

/// Whether the child `i` is a node of the class.
pub open spec fn is_node_of(children: Seq<SyntaxElement>, class: NodeClass, i: int) -> bool {
    0 <= i < children.len() && children[i] is Node && class.has(children[i]->Node_0.kind)
}

/// Whether the child `i` is a token of the kind.
pub open spec fn is_token_of(children: Seq<SyntaxElement>, kind: SyntaxKind, i: int) -> bool {
    0 <= i < children.len() && children[i] is Token && children[i]->Token_0.kind == kind
}

/// The position of the first child from `from` on that is a node of the
/// class; the number of children when there is none.
pub open spec fn node_index(children: Seq<SyntaxElement>, class: NodeClass, from: int) -> int
    decreases children.len() - from,
{
    if from < 0 || from >= children.len() {
        children.len() as int
    } else if is_node_of(children, class, from) {
        from
    } else {
        node_index(children, class, from + 1)
    }
}

/// The position of the first child from `from` on that is a token of the
/// kind; the number of children when there is none.
pub open spec fn token_index(children: Seq<SyntaxElement>, kind: SyntaxKind, from: int) -> int
    decreases children.len() - from,
{
    if from < 0 || from >= children.len() {
        children.len() as int
    } else if is_token_of(children, kind, from) {
        from
    } else {
        token_index(children, kind, from + 1)
    }
}

pub proof fn lemma_node_index(children: Seq<SyntaxElement>, class: NodeClass, from: int)
    requires
        0 <= from,
    ensures
        from <= node_index(children, class, from) || node_index(children, class, from)
            == children.len(),
        node_index(children, class, from) <= children.len(),
        node_index(children, class, from) < children.len() ==> is_node_of(
            children,
            class,
            node_index(children, class, from),
        ),
    decreases children.len() - from,
{
    if from < children.len() && !is_node_of(children, class, from) {
        lemma_node_index(children, class, from + 1);
    }
}

pub proof fn lemma_token_index(children: Seq<SyntaxElement>, kind: SyntaxKind, from: int)
    requires
        0 <= from,
    ensures
        from <= token_index(children, kind, from) || token_index(children, kind, from)
            == children.len(),
        token_index(children, kind, from) <= children.len(),
        token_index(children, kind, from) < children.len() ==> is_token_of(
            children,
            kind,
            token_index(children, kind, from),
        ),
    decreases children.len() - from,
{
    if from < children.len() && !is_token_of(children, kind, from) {
        lemma_token_index(children, kind, from + 1);
    }
}

impl SyntaxNode {
    /// The first child from `from` on that is a node of the class.
    pub open spec fn spec_child(&self, class: NodeClass, from: int) -> Option<SyntaxNode> {
        let i = node_index(self.children@, class, from);
        if 0 <= i < self.children@.len() && self.children@[i] is Node {
            Some(self.children@[i]->Node_0)
        } else {
            None
        }
    }

    /// The first child from `from` on that is a token of the kind.
    pub open spec fn spec_token(&self, kind: SyntaxKind, from: int) -> Option<Token> {
        let i = token_index(self.children@, kind, from);
        if 0 <= i < self.children@.len() && self.children@[i] is Token {
            Some(self.children@[i]->Token_0)
        } else {
            None
        }
    }

    /// The position of the first child from `from` on that is a node of the
    /// class; the number of children when there is none.
    pub fn find_node(&self, class: NodeClass, from: usize) -> (i: usize)
        ensures
            i == node_index(self.children@, class, from as int),
            i <= self.children@.len(),
            i < self.children@.len() ==> from <= i && is_node_of(self.children@, class, i as int),
    {
        let mut i = from;
        proof {
            lemma_node_index(self.children@, class, from as int);
        }
        while i < self.children.len()
            invariant
                from <= i,
                node_index(self.children@, class, i as int) == node_index(
                    self.children@,
                    class,
                    from as int,
                ),
            decreases self.children.len() - i,
        {
            match &self.children[i] {
                SyntaxElement::Node(n) => {
                    if class.contains(n.kind) {
                        return i;
                    }
                },
                SyntaxElement::Token(_) => {},
            }
            i = i + 1;
        }
        self.children.len()
    }

    /// The position of the first child from `from` on that is a token of the
    /// kind; the number of children when there is none.
    pub fn find_token(&self, kind: SyntaxKind, from: usize) -> (i: usize)
        ensures
            i == token_index(self.children@, kind, from as int),
            i <= self.children@.len(),
            i < self.children@.len() ==> from <= i && is_token_of(self.children@, kind, i as int),
    {
        let mut i = from;
        proof {
            lemma_token_index(self.children@, kind, from as int);
        }
        while i < self.children.len()
            invariant
                from <= i,
                token_index(self.children@, kind, i as int) == token_index(
                    self.children@,
                    kind,
                    from as int,
                ),
            decreases self.children.len() - i,
        {
            match &self.children[i] {
                SyntaxElement::Token(t) => {
                    if t.kind == kind {
                        return i;
                    }
                },
                SyntaxElement::Node(_) => {},
            }
            i = i + 1;
        }
        self.children.len()
    }

    /// The first child from `from` on that is a node of the class.
    pub fn child(&self, class: NodeClass, from: usize) -> (r: Option<&SyntaxNode>)
        ensures
            match r {
                Some(n) => self.spec_child(class, from as int) == Some(*n),
                None => self.spec_child(class, from as int) is None,
            },
            r matches Some(n) ==> class.has(n.kind) && node_index(
                self.children@,
                class,
                from as int,
            ) < self.children@.len() && self.children@[node_index(
                self.children@,
                class,
                from as int,
            )] == SyntaxElement::Node(*n),
    {
        let i = self.find_node(class, from);
        if i < self.children.len() {
            match &self.children[i] {
                SyntaxElement::Node(n) => Some(n),
                SyntaxElement::Token(_) => None,
            }
        } else {
            None
        }
    }

    /// The first child that is a token of the kind.
    pub fn token(&self, kind: SyntaxKind) -> (r: Option<&Token>)
        ensures
            match r {
                Some(t) => self.spec_token(kind, 0) == Some(*t),
                None => self.spec_token(kind, 0) is None,
            },
            r matches Some(t) ==> t.kind == kind,
    {
        let i = self.find_token(kind, 0);
        if i < self.children.len() {
            match &self.children[i] {
                SyntaxElement::Token(t) => Some(t),
                SyntaxElement::Node(_) => None,
            }
        } else {
            None
        }
    }
}

/// A typed view of a node of the syntax tree.
pub trait AstNode: Sized {
    /// Whether a node of kind `kind` can be viewed as `Self`.
    spec fn can_cast(kind: SyntaxKind) -> bool;

    /// The node that is viewed.
    spec fn node(&self) -> SyntaxNode;

    /// The view of `syntax`, if its kind allows it.
    fn cast(syntax: SyntaxNode) -> (r: Option<Self>)
        ensures
            r is Some <==> Self::can_cast(syntax.kind),
            r matches Some(view) ==> view.node() == syntax,
    ;

    /// The node that is viewed.
    fn syntax(&self) -> (r: &SyntaxNode)
        ensures
            *r == self.node(),
    ;
}

/// The root of a parsed file, a node of kind `MODULE`.
#[derive(Debug)]
pub struct Module {
    syntax: SyntaxNode,
}

impl AstNode for Module {
    open spec fn can_cast(kind: SyntaxKind) -> bool {
        kind == SyntaxKind::MODULE
    }

    closed spec fn node(&self) -> SyntaxNode {
        self.syntax
    }

    fn cast(syntax: SyntaxNode) -> (r: Option<Self>) {
        if syntax.kind == SyntaxKind::MODULE {
            Some(Module { syntax })
        } else {
            None
        }
    }

    fn syntax(&self) -> (r: &SyntaxNode) {
        &self.syntax
    }
}

} // verus!
