use vstd::prelude::*;
use vstd::string::*;

pub mod names;

use names::{canonical, process_type_name};

verus! {

/// One error of a native cause chain, as read from the error value: its raw
/// type descriptor and its rendered message.
#[derive(Debug)]
pub struct CauseLink {
    pub descriptor: String,
    pub message: String,
}

/// A captured error: its canonical type name and its context.
#[derive(Debug)]
pub struct AnyError {
    pub kind: String,
    pub context: AnyErrorContext,
}

/// The message of a captured error and the captured form of its cause.
#[derive(Debug)]
pub struct AnyErrorContext {
    pub message: String,
    pub inner_error: Option<Box<AnyError>>,
}

/// What a cause chain becomes: each error's canonical type name and message,
/// outermost first.
pub open spec fn captured(chain: Seq<CauseLink>) -> Seq<(Seq<char>, Seq<char>)> {
    chain.map_values(|l: CauseLink| (canonical(l.descriptor@), l.message@))
}

impl AnyError {
    /// The (type, message) pairs of this node and its causes, outermost first.
    pub open spec fn links(&self) -> Seq<(Seq<char>, Seq<char>)>
        decreases self,
    {
        seq![(self.kind@, self.context.message@)] + match self.context.inner_error {
            Some(inner) => inner.links(),
            None => seq![],
        }
    }

    /// Number of nested causes below this node.
    pub open spec fn depth(&self) -> nat
        decreases self,
    {
        match self.context.inner_error {
            Some(inner) => 1 + inner.depth(),
            None => 0,
        }
    }

    /// `"<type>: <message>"`, then the cause's rendering in parentheses.
    pub open spec fn rendered(&self) -> Seq<char>
        decreases self,
    {
        self.kind@ + ": "@ + self.context.message@ + match self.context.inner_error {
            Some(inner) => "("@ + inner.rendered() + ")"@,
            None => seq![],
        }
    }

    /// Captures a native cause chain, outermost error first.
    pub fn from_chain(chain: &Vec<CauseLink>) -> (r: AnyError)
        requires
            chain@.len() > 0,
        ensures
            r.links() == captured(chain@),
            r.depth() + 1 == chain@.len(),
    {
        let r = Self::from_chain_at(chain, 0);
        assert(chain@.subrange(0, chain@.len() as int) =~= chain@);
        r
    }

    fn from_chain_at(chain: &Vec<CauseLink>, i: usize) -> (r: AnyError)
        requires
            i < chain@.len(),
        ensures
            r.links() == captured(chain@.subrange(i as int, chain@.len() as int)),
            r.depth() + 1 == chain@.len() - i,
        decreases chain@.len() - i,
    {
        let link = &chain[i];
        let inner_error = if i < chain.len() - 1 {
            Some(Box::new(Self::from_chain_at(chain, i + 1)))
        } else {
            None
        };
        let r = AnyError {
            kind: process_type_name(link.descriptor.as_str()),
            context: AnyErrorContext { message: link.message.clone(), inner_error },
        };
        assert(r.links() =~= captured(chain@.subrange(i as int, chain@.len() as int)));
        r
    }

    /// The rendering of this node and its causes.
    pub fn render(&self) -> (r: String)
        ensures
            r@ == self.rendered(),
        decreases self,
    {
        let mut r = self.kind.clone();
        r.append(": ");
        r.append(self.context.message.as_str());
        match &self.context.inner_error {
            Some(inner) => {
                let s = inner.render();
                r.append("(");
                r.append(s.as_str());
                r.append(")");
            },
            None => {},
        }
        r
    }
}

impl Clone for AnyError {
    /// An independent deep copy, with the same types and messages at every level.
    fn clone(&self) -> (r: AnyError)
        ensures
            r.links() == self.links(),
            r.depth() == self.depth(),
        decreases self,
    {
        let inner_error = match &self.context.inner_error {
            Some(inner) => Some(Box::new(AnyError::clone(inner))),
            None => None,
        };
        let r = AnyError {
            kind: self.kind.clone(),
            context: AnyErrorContext { message: self.context.message.clone(), inner_error },
        };
        assert(r.links() =~= self.links());
        r
    }
}

/// A node without a cause renders as `"<type>: <message>"` alone; a node with
/// a cause always ends with the cause's rendering wrapped in parentheses.
pub proof fn lemma_render_shape(e: AnyError)
    ensures
        e.context.inner_error is None ==> e.rendered() == e.kind@ + ": "@
            + e.context.message@,
        e.context.inner_error is Some ==> e.rendered() == e.kind@ + ": "@
            + e.context.message@ + "("@ + e.context.inner_error->0.rendered() + ")"@,
{
    if e.context.inner_error is None {
        assert(e.rendered() =~= e.kind@ + ": "@ + e.context.message@);
    } else {
        let inner = e.context.inner_error->0;
        assert(e.rendered() =~= e.kind@ + ": "@ + e.context.message@ + "("@ + inner.rendered()
            + ")"@);
    }
}

/// A captured chain has one node per native error, and the nesting depth is
/// one less than the chain's length.
pub proof fn lemma_chain_length(e: AnyError)
    ensures
        e.links().len() == e.depth() + 1,
    decreases e,
{
    if let Some(inner) = e.context.inner_error {
        lemma_chain_length(*inner);
    }
}

} // verus!
