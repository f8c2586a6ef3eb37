//! Whole documents: the top-level sequence of tags and attributes over an
//! owned buffer.
use vstd::prelude::*;
use crate::effects::{EffectResult, Printer};
use crate::error::Error;
use crate::wml::{key_bytes, nodes_model, spec_node, NodeModel, StringKey, TagOrAttr};

verus! {

/// `(wml_tag | wml_attribute)*`: the nodes at the start of `s` and the bytes
/// they take.
pub open spec fn spec_items(s: Seq<u8>, off: int) -> (int, Seq<NodeModel>)
    decreases s.len(),
{
    match spec_node(s, off) {
        Some((m, node)) => if 0 < m <= s.len() {
            let (e, rest) = spec_items(s.skip(m), off + m);
            (m + e, seq![node] + rest)
        } else {
            (0, Seq::empty())
        },
        None => (0, Seq::empty()),
    }
}

/// The document that `buf` holds, if its nodes take all of it.
pub open spec fn spec_doc(buf: Seq<u8>) -> Option<Seq<NodeModel>> {
    let (n, top) = spec_items(buf, 0);
    if n == buf.len() {
        Some(top)
    } else {
        None
    }
}

/// A parsed WML document: its top-level nodes and the buffer that their keys
/// point into.
#[derive(Debug)]
pub struct Doc {
    top: Vec<TagOrAttr>,
    text: Vec<u8>,
}

pub struct DocModel {
    pub top: Seq<NodeModel>,
    pub text: Seq<u8>,
}

impl View for Doc {
    type V = DocModel;

    closed spec fn view(&self) -> DocModel {
        DocModel { top: nodes_model(self.top@), text: self.text@ }
    }
}

impl Doc {
    /// The top-level tags and attributes, in document order.
    pub fn top(&self) -> (r: &Vec<TagOrAttr>)
        ensures
            nodes_model(r@) == self@.top,
    {
        &self.top
    }

    /// The buffer that the document was parsed from.
    pub fn text(&self) -> (r: &[u8])
        ensures
            r@ == self@.text,
    {
        self.text.as_slice()
    }

    /// The bytes that `key` stands for, where it lies inside the buffer.
    pub fn get_bytes(&self, key: StringKey) -> (r: Option<&[u8]>)
        ensures
            (r is Some) <==> key.idx + key.len <= self@.text.len(),
            r is Some ==> r->Some_0@ == key_bytes(self@.text, key),
    {
        let printer = Printer::new(self.text.as_slice());
        match printer.get_bytes(key) {
            EffectResult::Handled(b) => Some(b),
            EffectResult::Unhandled => None,
        }
    }
}

/// Parses documents one after another.
#[derive(Debug)]
pub struct DocProcessor {}

impl DocProcessor {
    pub fn new() -> (r: DocProcessor) {
        DocProcessor {}
    }

    /// Each document owns its nodes, which are released with it; no state
    /// carries over from one parse to the next.
    pub fn reset(&mut self)
        ensures
            *final(self) == *old(self),
    {
    }

    /// The top-level nodes that this processor finds in `buf`, where they
    /// take all of it.
    pub open spec fn outcome(&self, buf: Seq<u8>) -> Option<Seq<NodeModel>> {
        spec_doc(buf)
    }

    /// Parse `buf` as a whole document.
    pub fn parse(&self, buf: Vec<u8>) -> (r: Result<Doc, Error>)
        ensures
            match self.outcome(buf@) {
                Some(top) => r is Ok && r->Ok_0@ == DocModel { top, text: buf@ },
                None => r == Err::<Doc, Error>(Error::TrailingInput),
            },
    {
        let mut top: Vec<TagOrAttr> = Vec::new();
        let mut used: usize = 0;
        let ghost s0 = buf@;
        proof {
            assert(nodes_model(top@) =~= Seq::<NodeModel>::empty());
            assert(Seq::<NodeModel>::empty() + spec_items(s0, 0).1 =~= spec_items(s0, 0).1);
            assert(s0.skip(0) =~= s0);
        }
        loop
            invariant
                s0 == buf@,
                0 <= used <= s0.len(),
                spec_items(s0, 0).0 == used + spec_items(s0.skip(used as int), used as int).0,
                spec_items(s0, 0).1 == nodes_model(top@) + spec_items(s0.skip(used as int), used as int).1,
            ensures
                0 <= used <= s0.len(),
                spec_items(s0, 0) == (used as int, nodes_model(top@)),
            decreases s0.len() - used,
        {
            let cursor = &buf[used..buf.len()];
            assert(cursor@ =~= s0.skip(used as int));
            match TagOrAttr::parse(cursor, used) {
                Ok((next, node)) => {
                    let m = cursor.len() - next.len();
                    proof {
                        assert(s0.skip(used as int).skip(m as int) =~= s0.skip(used + m));
                        let tail = spec_items(s0.skip(used + m), used + m);
                        assert(top@.push(node).subrange(0, top@.len() as int) =~= top@);
                        assert(nodes_model(top@.push(node)) == nodes_model(top@).push(node@));
                        assert(nodes_model(top@).push(node@) + tail.1 =~= nodes_model(top@) + (seq![node@] + tail.1));
                    }
                    top.push(node);
                    used = used + m;
                },
                Err(()) => {
                    proof {
                        assert(nodes_model(top@) + Seq::<NodeModel>::empty() =~= nodes_model(top@));
                    }
                    break;
                },
            }
        }
        if used == buf.len() {
            Ok(Doc { top, text: buf })
        } else {
            Err(Error::TrailingInput)
        }
    }
}


/// What a processor makes of a buffer does not depend on what it parsed or
/// discarded before: a processor after `reset` parses as a fresh one does.
pub proof fn lemma_outcome_independent_of_history(used: DocProcessor, fresh: DocProcessor, buf: Seq<u8>)
    ensures
        used.outcome(buf) == fresh.outcome(buf),
{
}

} // verus!
