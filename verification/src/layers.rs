//! The layer machine at the heart of lazy expansion.
//!
//! Layer `i` holds the symbols that are still owed at nesting depth `i`: each
//! of them has `i` rounds of rewriting left. Layer 0 therefore holds finished
//! symbols. The machine walks the derivation tree depth first, left to right,
//! with one cursor per layer in place of a call stack.
//!
//! The machine itself knows no grammar. It hands out the next symbol
//! ([`LayerStack::poll`]) and, where that symbol still needs rewriting, takes
//! the replacement chosen for it ([`LayerStack::descend`]).

use crate::text::split_first;
use vstd::prelude::*;

verus! {

/// The state of the machine, as mathematics.
pub struct Frontier {
    /// The unread rest of each layer; layer `i` at index `i`.
    pub layers: Seq<Seq<char>>,
    /// The layer being drained. One past the last layer when all is read.
    pub active: nat,
}

impl Frontier {
    /// There is at least one layer, the pointer is in range, and every layer
    /// below the pointer is drained.
    pub open spec fn wf(self) -> bool {
        &&& self.layers.len() >= 1
        &&& self.active <= self.layers.len()
        &&& forall|i: int|
            0 <= i < self.active && i < self.layers.len() ==> (#[trigger] self.layers[i]).len()
                == 0
    }

    /// The state of a machine that has not been asked yet: `depth + 1`
    /// layers, the top one holding `initiator`, the others empty, and the
    /// pointer one layer below the top (on the top where there is no other).
    pub open spec fn fresh(initiator: Seq<char>, depth: nat) -> Frontier {
        Frontier {
            layers: Seq::new(
                depth + 1,
                |i: int| if i == depth { initiator } else { Seq::<char>::empty() },
            ),
            active: if depth == 0 { 0 } else { (depth - 1) as nat },
        }
    }

    /// Every layer is drained.
    pub open spec fn drained(self) -> bool {
        forall|i: int| 0 <= i < self.layers.len() ==> (#[trigger] self.layers[i]).len() == 0
    }

    /// The machine has come to its end: every layer is drained and the
    /// pointer stands one past the last layer.
    pub open spec fn exhausted(self) -> bool {
        self.drained() && self.active == self.layers.len()
    }

    /// The state with the first symbol of layer `at` removed and the pointer
    /// on that layer.
    pub open spec fn taken(self, at: int) -> Frontier {
        Frontier { layers: self.layers.update(at, self.layers[at].drop_first()), active: at as nat }
    }

    /// The state with `body` installed one layer below the pointer, and the
    /// pointer moved onto it.
    pub open spec fn descended(self, body: Seq<char>) -> Frontier {
        Frontier {
            layers: self.layers.update(self.active - 1, body),
            active: (self.active - 1) as nat,
        }
    }
}

/// What the machine found when asked for the next symbol.
#[derive(Debug, Clone, Copy, PartialEq, Eq, Structural)]
pub enum Pull {
    /// Every layer is drained.
    Exhausted,
    /// A finished symbol, read from layer 0.
    Emit(char),
    /// A symbol read from a layer above 0. It has rounds of rewriting left:
    /// either it has no rule and is emitted as it is, or one of its
    /// replacements goes to [`LayerStack::descend`].
    Resolve(char),
}

/// One cursor per nesting depth, and the pointer to the layer being drained.
#[derive(Debug)]
pub struct LayerStack<'a> {
    depth: usize,
    layers: Vec<&'a str>,
    active_layer: usize,
}

impl<'a> View for LayerStack<'a> {
    type V = Frontier;

    closed spec fn view(&self) -> Frontier {
        Frontier {
            layers: Seq::new(self.layers@.len(), |i: int| self.layers@[i]@),
            active: self.active_layer as nat,
        }
    }
}

impl<'a> Clone for LayerStack<'a> {
    /// A machine in the same state, reading the same text.
    fn clone(&self) -> (copy: Self)
        ensures
            copy@ == self@,
            copy.spec_depth() == self.spec_depth(),
            copy.wf() == self.wf(),
    {
        let mut layers: Vec<&'a str> = Vec::with_capacity(self.layers.len());
        let mut i: usize = 0;
        while i < self.layers.len()
            invariant
                i <= self.layers@.len(),
                layers@ == self.layers@.take(i as int),
            decreases self.layers@.len() - i,
        {
            layers.push(self.layers[i]);
            i = i + 1;
        }
        proof {
            assert(layers@ =~= self.layers@);
        }
        LayerStack { depth: self.depth, layers, active_layer: self.active_layer }
    }
}

impl<'a> LayerStack<'a> {
    /// The representation is consistent and the state is well formed.
    pub closed spec fn wf(&self) -> bool {
        &&& self.depth < usize::MAX
        &&& self.layers@.len() == self.depth + 1
        &&& self@.wf()
    }

    /// The number of rewriting rounds that the top layer stands for.
    pub closed spec fn spec_depth(&self) -> nat {
        self.depth as nat
    }

    /// A consistent machine has one layer per depth from 0 to `depth`, and
    /// its state is well formed.
    pub proof fn lemma_wf(&self)
        requires
            self.wf(),
        ensures
            self@.wf(),
            self@.layers.len() == self.spec_depth() + 1,
    {
    }

    /// A machine of `depth + 1` layers, the top one holding `initiator`, the
    /// others empty.
    pub fn new(initiator: &'a str, depth: usize) -> (stack: Self)
        requires
            depth < usize::MAX,
        ensures
            stack.wf(),
            stack.spec_depth() == depth,
            stack@ == Frontier::fresh(initiator@, depth as nat),
    {
        let empty: &'a str = "";
        proof {
            reveal_strlit("");
        }
        let mut layers: Vec<&'a str> = Vec::with_capacity(depth + 1);
        let mut filled: usize = 0;
        while filled < depth
            invariant
                filled <= depth,
                layers@.len() == filled,
                empty@.len() == 0,
                forall|i: int| 0 <= i < filled ==> (#[trigger] layers@[i])@.len() == 0,
            decreases depth - filled,
        {
            layers.push(empty);
            filled = filled + 1;
        }
        layers.push(initiator);
        let active_layer = if depth == 0 { 0 } else { depth - 1 };
        let stack = LayerStack { depth, layers, active_layer };
        proof {
            assert(stack@.layers =~~= Frontier::fresh(initiator@, depth as nat).layers);
        }
        stack
    }

    /// The depth that the machine was made for.
    pub fn depth(&self) -> (depth: usize)
        ensures
            depth == self.spec_depth(),
    {
        self.depth
    }

    /// Hands out the next symbol, skipping layers that are drained.
    ///
    /// A symbol of layer 0 is finished. A symbol of a higher layer is handed
    /// out as [`Pull::Resolve`], with the pointer left on its layer.
    pub fn poll(&mut self) -> (pull: Pull)
        requires
            old(self).wf(),
        ensures
            final(self).wf(),
            final(self).spec_depth() == old(self).spec_depth(),
            match pull {
                Pull::Exhausted => {
                    &&& old(self)@.drained()
                    &&& final(self)@.exhausted()
                    &&& final(self)@.layers == old(self)@.layers
                },
                Pull::Emit(symbol) => {
                    &&& old(self)@.layers[0].len() > 0
                    &&& symbol == old(self)@.layers[0][0]
                    &&& final(self)@ == old(self)@.taken(0)
                },
                Pull::Resolve(symbol) => {
                    let at = final(self)@.active as int;
                    &&& 1 <= at < old(self)@.layers.len()
                    &&& forall|i: int| 0 <= i < at ==> (#[trigger] old(self)@.layers[i]).len() == 0
                    &&& old(self)@.layers[at].len() > 0
                    &&& symbol == old(self)@.layers[at][0]
                    &&& final(self)@ == old(self)@.taken(at)
                },
            },
    {
        loop
            invariant
                self.wf(),
                self.depth == old(self).depth,
                self@.layers == old(self)@.layers,
            decreases self.depth + 1 - self.active_layer,
        {
            if self.active_layer > self.depth {
                return Pull::Exhausted;
            }
            if let Some((symbol, tail)) = split_first(self.layers[0]) {
                self.layers[0] = tail;
                proof {
                    assert(self@.layers =~= old(self)@.taken(0).layers);
                }
                return Pull::Emit(symbol);
            }
            let at = self.active_layer;
            match split_first(self.layers[at]) {
                Some((symbol, tail)) => {
                    self.layers[at] = tail;
                    proof {
                        assert(self@.layers =~= old(self)@.taken(at as int).layers);
                    }
                    return Pull::Resolve(symbol);
                },
                None => {
                    self.active_layer = at + 1;
                },
            }
        }
    }

    /// Installs `body`, the replacement chosen for the symbol that
    /// [`LayerStack::poll`] handed out last, one layer below the pointer, and
    /// moves the pointer onto it.
    pub fn descend(&mut self, body: &'a str)
        requires
            old(self).wf(),
            1 <= old(self)@.active < old(self)@.layers.len(),
        ensures
            final(self).wf(),
            final(self).spec_depth() == old(self).spec_depth(),
            final(self)@ == old(self)@.descended(body@),
    {
        let below = self.active_layer - 1;
        self.layers[below] = body;
        self.active_layer = below;
        proof {
            assert(self@.layers =~= old(self)@.descended(body@).layers);
        }
    }
}

} // verus!
