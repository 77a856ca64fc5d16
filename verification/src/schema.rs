//! Hand-authored type schemas: an explicit registry of field descriptors in
//! place of automatic structural reflection, rendered to the established
//! one-line text form.
//!
//! A schema is a tree. Each node is either a named field with a type name,
//! or an enum variant; its children describe the nested members. A field
//! prints as `id:type`, a variant as `id|`, each followed by its children in
//! parentheses when it has any.

use vstd::prelude::*;

verus! {

broadcast use vstd::string::group_string_axioms, vstd::std_specs::vec::axiom_vec_index_decreases;

/// Whether a node describes a field or an enum variant.
#[derive(Clone, Copy, Debug, PartialEq, Eq, Structural)]
pub enum SchemaKind {
    Field,
    Variant,
}

/// One node of a schema tree.
#[derive(Debug)]
pub struct SchemaNode {
    pub kind: SchemaKind,
    pub id: String,
    pub tyname: String,
    pub children: Vec<SchemaNode>,
}

/// The rendered text of the first `count` children, separated by spaces.
pub open spec fn spec_render_upto(cs: Vec<SchemaNode>, count: int) -> Seq<char>
    decreases cs, count,
{
    if count <= 0 || count > cs@.len() {
        Seq::empty()
    } else if count == 1 {
        spec_render(cs@[0])
    } else {
        spec_render_upto(cs, count - 1) + seq![' '] + spec_render(cs@[count - 1])
    }
}

/// The rendered text of one schema node.
pub open spec fn spec_render(n: SchemaNode) -> Seq<char>
    decreases n,
{
    let head = if n.kind is Field {
        n.id@ + seq![':'] + n.tyname@
    } else {
        n.id@ + seq!['|']
    };
    if n.children@.len() == 0 {
        head
    } else {
        head + seq!['(', ' '] + spec_render_upto(n.children, n.children@.len() as int) + seq![
            ' ',
            ')',
        ]
    }
}

impl SchemaNode {
    /// A field descriptor.
    pub fn field(id: &str, tyname: &str, children: Vec<SchemaNode>) -> (r: SchemaNode)
        ensures
            r.kind == SchemaKind::Field,
            r.id@ == id@,
            r.tyname@ == tyname@,
            r.children == children,
    {
        SchemaNode {
            kind: SchemaKind::Field,
            id: <String as vstd::string::StringExecFns>::from_str(id),
            tyname: <String as vstd::string::StringExecFns>::from_str(tyname),
            children,
        }
    }

    /// An enum-variant descriptor.
    pub fn variant(id: &str, children: Vec<SchemaNode>) -> (r: SchemaNode)
        ensures
            r.kind == SchemaKind::Variant,
            r.id@ == id@,
            r.children == children,
    {
        SchemaNode {
            kind: SchemaKind::Variant,
            id: <String as vstd::string::StringExecFns>::from_str(id),
            tyname: <String as vstd::string::StringExecFns>::from_str(""),
            children,
        }
    }
}

/// Render a schema tree to its one-line text form.
pub fn render(n: &SchemaNode) -> (r: String)
    ensures
        r@ == spec_render(*n),
    decreases *n,
{
    let mut out = String::new();
    <String as vstd::string::StringExecFns>::append(&mut out, n.id.as_str());
    match n.kind {
        SchemaKind::Field => {
            proof {
                reveal_strlit(":");
                assert(":"@ =~= seq![':']);
            }
            <String as vstd::string::StringExecFns>::append(&mut out, ":");
            <String as vstd::string::StringExecFns>::append(&mut out, n.tyname.as_str());
        },
        SchemaKind::Variant => {
            proof {
                reveal_strlit("|");
                assert("|"@ =~= seq!['|']);
            }
            <String as vstd::string::StringExecFns>::append(&mut out, "|");
        },
    }
    let ghost head = out@;
    if n.children.len() > 0 {
        proof {
            reveal_strlit("( ");
            assert("( "@ =~= seq!['(', ' ']);
            reveal_strlit(" ");
            assert(" "@ =~= seq![' ']);
            reveal_strlit(" )");
            assert(" )"@ =~= seq![' ', ')']);
        }
        <String as vstd::string::StringExecFns>::append(&mut out, "( ");
        let mut i: usize = 0;
        while i < n.children.len()
            invariant
                i <= n.children@.len(),
                out@ == head + seq!['(', ' '] + spec_render_upto(n.children, i as int),
            decreases n.children@.len() - i,
        {
            if i > 0 {
                proof {
                    reveal_strlit(" ");
                    assert(" "@ =~= seq![' ']);
                }
                <String as vstd::string::StringExecFns>::append(&mut out, " ");
            }
            let rendered = render(&n.children[i]);
            <String as vstd::string::StringExecFns>::append(&mut out, rendered.as_str());
            i = i + 1;
            proof {
                if i == 1 {
                    assert(head + seq!['(', ' '] + Seq::<char>::empty() + spec_render(
                        n.children@[0],
                    ) =~= head + seq!['(', ' '] + spec_render_upto(n.children, 1));
                } else {
                    assert(head + seq!['(', ' '] + spec_render_upto(n.children, i - 1) + seq![' ']
                        + spec_render(n.children@[i - 1]) =~= head + seq!['(', ' ']
                        + spec_render_upto(n.children, i as int));
                }
            }
        }
        proof {
            reveal_strlit(" )");
        }
        <String as vstd::string::StringExecFns>::append(&mut out, " )");
        proof {
            assert(out@ =~= spec_render(*n));
        }
    }
    out
}

} // verus!
