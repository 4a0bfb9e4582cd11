//! The syntax tree as a green tree of rowan, built by a walk through the tree.

use vstd::prelude::*;
use rowan::{GreenNode, GreenNodeBuilder};
use crate::lexer::Token;
use crate::render::{element_len, elements_len, lemma_elements_len_step};
use crate::text::byte_len;
use crate::tree::{SyntaxElement, SyntaxNode};

verus! {

/// `rowan::GreenNode`: a node of rowan's immutable, shared tree.
#[verifier::external_type_specification]
#[verifier::external_body]
pub struct ExGreenNode(GreenNode);

/// `rowan::GreenNodeBuilder`: builds a green tree from calls in the order of
/// the source text.
#[verifier::external_type_specification]
#[verifier::external_body]
pub struct ExGreenNodeBuilder<'cache>(GreenNodeBuilder<'cache>);

/// One step of a walk through a green tree: into a node of a raw kind, over a
/// token of a raw kind with its text, out of a node.
pub enum RawStep {
    Start(u16),
    Leaf(u16, Seq<char>),
    Finish,
}

/// The calls that a builder has taken so far, in their order.
pub uninterp spec fn builder_steps(builder: GreenNodeBuilder<'static>) -> Seq<RawStep>;

/// The walk through a green tree, in the order of the source text.
pub uninterp spec fn green_steps(node: GreenNode) -> Seq<RawStep>;

/// How many nodes are open after the steps.
pub open spec fn raw_depth(steps: Seq<RawStep>) -> int
    decreases steps.len(),
{
    if steps.len() == 0 {
        0
    } else {
        raw_depth(steps.drop_last()) + match steps.last() {
            RawStep::Start(_) => 1int,
            RawStep::Leaf(_, _) => 0int,
            RawStep::Finish => -1int,
        }
    }
}

/// The number of bytes of the texts of the tokens among the steps.
pub open spec fn raw_text_len(steps: Seq<RawStep>) -> nat
    decreases steps.len(),
{
    if steps.len() == 0 {
        0
    } else {
        raw_text_len(steps.drop_last()) + match steps.last() {
            RawStep::Leaf(_, text) => byte_len(text),
            _ => 0nat,
        }
    }
}

/// The steps are the walk through exactly one node: they begin with a
/// `Start`, and the node that it opens stays open up to the last step, which
/// closes it.
pub open spec fn one_tree(steps: Seq<RawStep>) -> bool {
    &&& steps.len() >= 2
    &&& steps[0] is Start
    &&& raw_depth(steps) == 0
    &&& forall|n: int| 0 < n < steps.len() ==> raw_depth(#[trigger] steps.take(n)) >= 1
}

/// `GreenNodeBuilder::new`: a builder that has taken no call.
#[verifier::external_body]
fn new_builder() -> (builder: GreenNodeBuilder<'static>)
    ensures
        builder_steps(builder) == Seq::<RawStep>::empty(),
{
    GreenNodeBuilder::new()
}

/// `GreenNodeBuilder::start_node`: a node of the kind is opened.
#[verifier::external_body]
fn start_node(builder: &mut GreenNodeBuilder<'static>, kind: u16)
    ensures
        builder_steps(*final(builder)) == builder_steps(*old(builder)).push(RawStep::Start(kind)),
{
    builder.start_node(rowan::SyntaxKind(kind));
}

/// `GreenNodeBuilder::token`: a token of the kind with the text is added to
/// the node that is open. rowan keeps offsets in 32 bits, so the text of all
/// tokens together has to stay below 4 GiB.
#[verifier::external_body]
fn add_token(builder: &mut GreenNodeBuilder<'static>, kind: u16, text: &str)
    requires
        raw_text_len(builder_steps(*old(builder))) + byte_len(text@) <= u32::MAX,
    ensures
        builder_steps(*final(builder)) == builder_steps(*old(builder)).push(
            RawStep::Leaf(kind, text@),
        ),
{
    builder.token(rowan::SyntaxKind(kind), text);
}

/// `GreenNodeBuilder::finish_node`: the innermost open node is closed. There
/// has to be one (the builder panics otherwise), and the text below it has to
/// stay below 4 GiB (its length is summed up in 32 bits).
#[verifier::external_body]
fn finish_node(builder: &mut GreenNodeBuilder<'static>)
    requires
        raw_depth(builder_steps(*old(builder))) >= 1,
        raw_text_len(builder_steps(*old(builder))) <= u32::MAX,
    ensures
        builder_steps(*final(builder)) == builder_steps(*old(builder)).push(RawStep::Finish),
{
    builder.finish_node();
}

/// `GreenNodeBuilder::finish`: the tree that was built. The calls have to
/// make up exactly one node (the builder panics unless one node is what it is
/// left with). A walk through the tree takes the steps of the calls.
#[verifier::external_body]
fn finish_builder(builder: GreenNodeBuilder<'static>) -> (node: GreenNode)
    requires
        one_tree(builder_steps(builder)),
    ensures
        green_steps(node) == builder_steps(builder),
{
    builder.finish()
}

/// The walk through an element, with kinds as raw numbers.
pub open spec fn raw_element_steps(e: SyntaxElement) -> Seq<RawStep>
    decreases e, 0nat,
{
    match e {
        SyntaxElement::Token(t) => seq![RawStep::Leaf(t.kind.spec_index() as u16, t.text@)],
        SyntaxElement::Node(n) => seq![RawStep::Start(n.kind.spec_index() as u16)]
            + raw_elements_steps(n.children@) + seq![RawStep::Finish],
    }
}

/// The walk through a sequence of elements, with kinds as raw numbers.
pub open spec fn raw_elements_steps(s: Seq<SyntaxElement>) -> Seq<RawStep>
    decreases s, 1nat,
{
    if s.len() == 0 {
        Seq::empty()
    } else {
        raw_elements_steps(s.drop_last()) + raw_element_steps(s.last())
    }
}

pub proof fn lemma_raw_depth_concat(a: Seq<RawStep>, b: Seq<RawStep>)
    ensures
        raw_depth(a + b) == raw_depth(a) + raw_depth(b),
        raw_text_len(a + b) == raw_text_len(a) + raw_text_len(b),
    decreases b.len(),
{
    if b.len() == 0 {
        assert(a + b =~= a);
    } else {
        lemma_raw_depth_concat(a, b.drop_last());
        assert((a + b).drop_last() =~= a + b.drop_last());
        assert((a + b).last() == b.last());
    }
}

proof fn lemma_raw_one(step: RawStep)
    ensures
        raw_depth(seq![step]) == (match step {
            RawStep::Start(_) => 1int,
            RawStep::Leaf(_, _) => 0int,
            RawStep::Finish => -1int,
        }),
        raw_text_len(seq![step]) == (match step {
            RawStep::Leaf(_, text) => byte_len(text),
            _ => 0nat,
        }),
{
    reveal_with_fuel(raw_depth, 2);
    reveal_with_fuel(raw_text_len, 2);
    assert(seq![step].drop_last() =~= Seq::<RawStep>::empty());
    assert(seq![step].last() == step);
}

/// Every prefix of a walk through elements leaves no node closed that it did
/// not open, the whole walk leaves none open, and the walk passes the text of
/// the elements.
pub proof fn lemma_walk_element(e: SyntaxElement)
    ensures
        raw_depth(raw_element_steps(e)) == 0,
        raw_text_len(raw_element_steps(e)) == element_len(e),
        forall|n: int|
            0 <= n <= raw_element_steps(e).len() ==> raw_depth(
                #[trigger] raw_element_steps(e).take(n),
            ) >= 0,
        e is Node ==> forall|n: int|
            0 < n < raw_element_steps(e).len() ==> raw_depth(
                #[trigger] raw_element_steps(e).take(n),
            ) >= 1,
    decreases e, 0nat,
{
    let steps = raw_element_steps(e);
    match e {
        SyntaxElement::Token(t) => {
            lemma_raw_one(RawStep::Leaf(t.kind.spec_index() as u16, t.text@));
            crate::render::lemma_token_len_pub(t);
            assert forall|n: int| 0 <= n <= steps.len() implies raw_depth(#[trigger] steps.take(n))
                >= 0 by {
                if n == 0 {
                    assert(steps.take(0) =~= Seq::<RawStep>::empty());
                } else {
                    assert(steps.take(1) =~= steps);
                }
            }
        },
        SyntaxElement::Node(node) => {
            let open = seq![RawStep::Start(node.kind.spec_index() as u16)];
            let inner = raw_elements_steps(node.children@);
            let close = seq![RawStep::Finish];
            lemma_walk_elements(node.children@);
            lemma_raw_one(RawStep::Start(node.kind.spec_index() as u16));
            lemma_raw_one(RawStep::Finish);
            lemma_raw_depth_concat(open, inner);
            lemma_raw_depth_concat(open + inner, close);
            assert forall|n: int| 0 < n < steps.len() implies raw_depth(#[trigger] steps.take(n))
                >= 1 by {
                assert(steps.take(n) =~= open + inner.take(n - 1));
                lemma_raw_depth_concat(open, inner.take(n - 1));
            }
            assert forall|n: int| 0 <= n <= steps.len() implies raw_depth(#[trigger] steps.take(n))
                >= 0 by {
                if n == 0 {
                    assert(steps.take(0) =~= Seq::<RawStep>::empty());
                } else if n == steps.len() {
                    assert(steps.take(n) =~= steps);
                }
            }
        },
    }
}

pub proof fn lemma_walk_elements(s: Seq<SyntaxElement>)
    ensures
        raw_depth(raw_elements_steps(s)) == 0,
        raw_text_len(raw_elements_steps(s)) == elements_len(s),
        forall|n: int|
            0 <= n <= raw_elements_steps(s).len() ==> raw_depth(
                #[trigger] raw_elements_steps(s).take(n),
            ) >= 0,
    decreases s, 1nat,
{
    let steps = raw_elements_steps(s);
    if s.len() == 0 {
        assert forall|n: int| 0 <= n <= steps.len() implies raw_depth(#[trigger] steps.take(n))
            >= 0 by {
            assert(steps.take(n) =~= Seq::<RawStep>::empty());
        }
        crate::render::lemma_elements_len_empty(s);
    } else {
        let before = raw_elements_steps(s.drop_last());
        let last = raw_element_steps(s.last());
        lemma_walk_elements(s.drop_last());
        lemma_walk_element(s.last());
        lemma_raw_depth_concat(before, last);
        assert(s.take(s.len() - 1) =~= s.drop_last());
        assert(s.take(s.len() as int) =~= s);
        lemma_elements_len_step(s, s.len() - 1);
        assert forall|n: int| 0 <= n <= steps.len() implies raw_depth(#[trigger] steps.take(n))
            >= 0 by {
            if n <= before.len() {
                assert(steps.take(n) =~= before.take(n));
            } else {
                assert(steps.take(n) =~= before + last.take(n - before.len()));
                lemma_raw_depth_concat(before, last.take(n - before.len()));
            }
        }
    }
}

/// Adds the walk through `node` to the builder.
fn push_node(builder: &mut GreenNodeBuilder<'static>, node: &SyntaxNode)
    requires
        raw_depth(builder_steps(*old(builder))) >= 0,
        raw_text_len(builder_steps(*old(builder))) + element_len(SyntaxElement::Node(*node))
            <= u32::MAX,
    ensures
        builder_steps(*final(builder)) == builder_steps(*old(builder)) + raw_element_steps(
            SyntaxElement::Node(*node),
        ),
    decreases node,
{
    let ghost base = builder_steps(*builder);
    let ghost open = seq![RawStep::Start(node.kind.spec_index() as u16)];
    start_node(builder, node.kind.index());
    let mut i: usize = 0;
    proof {
        lemma_raw_one(RawStep::Start(node.kind.spec_index() as u16));
        lemma_raw_depth_concat(base, open);
        assert(base.push(RawStep::Start(node.kind.spec_index() as u16)) =~= base + open);
        assert(node.children@.take(0) =~= Seq::<SyntaxElement>::empty());
        assert(base + open + raw_elements_steps(node.children@.take(0)) =~= base + open);
        crate::render::lemma_elements_len_empty(node.children@.take(0));
    }
    while i < node.children.len()
        invariant
            i <= node.children.len(),
            raw_depth(base) >= 0,
            raw_text_len(base) + elements_len(node.children@) <= u32::MAX,
            builder_steps(*builder) == base + open + raw_elements_steps(
                node.children@.take(i as int),
            ),
            raw_depth(base + open) == raw_depth(base) + 1,
            raw_text_len(base + open) == raw_text_len(base),
        decreases node.children.len() - i,
    {
        let ghost walked = raw_elements_steps(node.children@.take(i as int));
        proof {
            lemma_walk_elements(node.children@.take(i as int));
            lemma_raw_depth_concat(base + open, walked);
            lemma_elements_len_step(node.children@, i as int);
            assert(node.children@.take(i + 1).drop_last() =~= node.children@.take(i as int));
            lemma_walk_element(node.children@[i as int]);
        }
        match &node.children[i] {
            SyntaxElement::Token(t) => {
                proof {
                    crate::render::lemma_token_len_pub(*t);
                }
                add_token(builder, t.kind.index(), t.text.as_str());
                proof {
                    assert((base + open + walked).push(
                        RawStep::Leaf(t.kind.spec_index() as u16, t.text@),
                    ) =~= base + open + raw_elements_steps(node.children@.take(i + 1)));
                }
            },
            SyntaxElement::Node(child) => {
                push_node(builder, child);
                proof {
                    assert(base + open + walked + raw_element_steps(node.children@[i as int])
                        =~= base + open + raw_elements_steps(node.children@.take(i + 1)));
                }
            },
        }
        i = i + 1;
    }
    proof {
        assert(node.children@.take(i as int) =~= node.children@);
        let inner = raw_elements_steps(node.children@);
        lemma_walk_elements(node.children@);
        lemma_raw_depth_concat(base + open, inner);
    }
    finish_node(builder);
    proof {
        assert(builder_steps(*builder) =~= base + raw_element_steps(SyntaxElement::Node(*node)));
    }
}

/// The tree as a green tree of rowan. A walk through the green tree takes the
/// steps of the walk through `root`, with each kind as its index.
pub fn to_green(root: &SyntaxNode) -> (green: GreenNode)
    requires
        element_len(SyntaxElement::Node(*root)) <= u32::MAX,
    ensures
        green_steps(green) == raw_element_steps(SyntaxElement::Node(*root)),
{
    let mut builder = new_builder();
    proof {
        assert(raw_depth(Seq::<RawStep>::empty()) == 0);
        assert(raw_text_len(Seq::<RawStep>::empty()) == 0);
    }
    push_node(&mut builder, root);
    proof {
        let steps = raw_element_steps(SyntaxElement::Node(*root));
        assert(Seq::<RawStep>::empty() + steps =~= steps);
        lemma_walk_element(SyntaxElement::Node(*root));
    }
    finish_builder(builder)
}

} // verus!
