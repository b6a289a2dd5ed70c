use vstd::prelude::*;
use crate::analysis::SimpleLang;
use crate::egraph::{ENodeView, node_view};

verus! {

/// The rounds in which the e-nodes of a class are instantiated: each round tries the
/// e-nodes that are still pending, in order; those that fail wait for the next round,
/// which happens only where the round instantiated at least one e-node.
pub struct SigmaRounds {
    pub pending: Vec<SimpleLang>,
    pub still: Vec<SimpleLang>,
    pub next: usize,
    pub progress: bool,
    pub has_image: bool,
}

/// What to do next in the rounds.
pub enum SigmaStep {
    /// Instantiate the e-node at this position of `pending` and report how it went.
    Instantiate(usize),
    /// The rounds are over.
    Finished,
}

/// What becomes of the image of an e-node that was instantiated.
pub enum ImageUse {
    /// It is the first image of the class: it becomes the class's image, memoised.
    First,
    /// The class has an image already: the two are united.
    Unite,
    /// The e-node was not instantiated: it waits for the next round.
    Retry,
}

/// The views of a list of e-nodes.
pub open spec fn nodes_view(s: Seq<SimpleLang>) -> Seq<ENodeView> {
    s.map_values(|e: SimpleLang| node_view(e))
}

/// A copy of an e-node.
pub fn duplicate_node(e: &SimpleLang) -> (r: SimpleLang)
    ensures
        node_view(r) == node_view(*e),
{
    match e {
        SimpleLang::App(a, b) => SimpleLang::App(a.duplicate(), b.duplicate()),
        SimpleLang::Var(x) => SimpleLang::Var(*x),
        SimpleLang::Symbol(f) => SimpleLang::Symbol(*f),
        SimpleLang::Number(k) => SimpleLang::Number(*k),
    }
}

impl SigmaRounds {
    pub open spec fn wf(&self) -> bool {
        self.next <= self.pending@.len()
    }

    /// The rounds over the e-nodes of a class, before the first.
    pub fn new(nodes: Vec<SimpleLang>) -> (r: SigmaRounds)
        ensures
            r.wf(),
            r.pending@ == nodes@,
            r.still@.len() == 0,
            r.next == 0,
            !r.progress,
            !r.has_image,
    {
        SigmaRounds { pending: nodes, still: Vec::new(), next: 0, progress: false, has_image: false }
    }

    /// The next e-node to instantiate: the next pending one of this round; where the
    /// round is over, the first of the next round where this one made progress and left
    /// e-nodes waiting; otherwise the rounds are over.
    pub fn step(&mut self) -> (r: SigmaStep)
        requires
            old(self).wf(),
        ensures
            final(self).wf(),
            final(self).has_image == old(self).has_image,
            old(self).next < old(self).pending@.len() ==> r == SigmaStep::Instantiate(old(self).next)
                && final(self).pending == old(self).pending && final(self).still == old(self).still
                && final(self).next == old(self).next + 1 && final(self).progress == old(self).progress,
            old(self).next == old(self).pending@.len() ==> if old(self).progress && old(self).still@.len()
                > 0 {
                r == SigmaStep::Instantiate(0) && final(self).pending@ == old(self).still@
                    && final(self).still@.len() == 0 && final(self).next == 1 && !final(self).progress
            } else {
                r == SigmaStep::Finished && *final(self) == *old(self)
            },
    {
        if self.next < self.pending.len() {
            let i = self.next;
            self.next = self.next + 1;
            return SigmaStep::Instantiate(i);
        }
        if self.progress && self.still.len() > 0 {
            let mut taken: Vec<SimpleLang> = Vec::new();
            core::mem::swap(&mut self.still, &mut taken);
            self.pending = taken;
            self.progress = false;
            self.next = 1;
            return SigmaStep::Instantiate(0);
        }
        SigmaStep::Finished
    }

    /// Records how the instantiation of the e-node at position `i` of `pending` went.
    pub fn report(&mut self, i: usize, instantiated: bool) -> (r: ImageUse)
        requires
            old(self).wf(),
            i < old(self).pending@.len(),
        ensures
            final(self).wf(),
            final(self).pending == old(self).pending,
            final(self).next == old(self).next,
            !instantiated ==> r == ImageUse::Retry && nodes_view(final(self).still@) == nodes_view(
                old(self).still@,
            ).push(node_view(old(self).pending@[i as int]))
                && final(self).progress == old(self).progress && final(self).has_image == old(
                self,
            ).has_image,
            instantiated ==> r == (if old(self).has_image {
                ImageUse::Unite
            } else {
                ImageUse::First
            }) && final(self).still == old(self).still && final(self).progress && final(self).has_image,
    {
        if !instantiated {
            let ghost before = self.still@;
            let n = duplicate_node(&self.pending[i]);
            self.still.push(n);
            assert(nodes_view(self.still@) =~= nodes_view(before).push(node_view(self.pending@[i as int])));
            return ImageUse::Retry;
        }
        self.progress = true;
        if self.has_image {
            ImageUse::Unite
        } else {
            self.has_image = true;
            ImageUse::First
        }
    }
}

} // verus!
