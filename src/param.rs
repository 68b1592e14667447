//! Parameter propagation along edges: an output offers itself to each successor's input,
//! which takes it only when the types match; an input nothing filled keeps its default.
use vstd::prelude::*;
use std::any::TypeId;
use crate::graph::NodeId;

verus! {

/// The output of a node: a value and the type it was produced as.
pub struct OutParam<T> {
    pub tag: TypeId,
    pub value: T,
}

/// The input of a node: the type it accepts, its current value, and which predecessor
/// filled it last, if any.
pub struct InParam<T> {
    pub tag: TypeId,
    pub value: T,
    pub filled_by: Option<NodeId>,
}

impl<T: Copy> InParam<T> {
    /// An input holding its default value.
    pub fn new(tag: TypeId, default: T) -> (r: InParam<T>)
        ensures
            r.tag == tag,
            r.value == default,
            r.filled_by.is_none(),
    {
        InParam { tag, value: default, filled_by: None }
    }

    /// Whether an output of type `tag` can fill this input.
    pub fn can_fill(&self, tag: &TypeId) -> (r: bool)
        ensures
            r == (self.tag == *tag),
    {
        self.tag == *tag
    }

    /// Takes the value of `out` when its type matches; otherwise changes nothing.
    pub fn fill_from(&mut self, pre_id: NodeId, out: &OutParam<T>) -> (r: bool)
        ensures
            r == (old(self).tag == out.tag),
            r ==> final(self).value == out.value && final(self).filled_by == Some(pre_id)
                && final(self).tag == old(self).tag,
            !r ==> *final(self) == *old(self),
    {
        if self.tag == out.tag {
            self.value = out.value;
            self.filled_by = Some(pre_id);
            true
        } else {
            false
        }
    }
}

/// The value an input of type `tag` ends up with after being offered `outs` in order:
/// the last matching output, or `default` when none matches.
pub open spec fn filled_value<T>(tag: TypeId, default: T, outs: Seq<(NodeId, TypeId, T)>) -> T
    decreases outs.len(),
{
    if outs.len() == 0 {
        default
    } else if outs.last().1 == tag {
        outs.last().2
    } else {
        filled_value(tag, default, outs.drop_last())
    }
}

/// Builds a node's input from its predecessors' outputs, offered in order.
pub fn collect_input<T: Copy>(tag: TypeId, default: T, from: &Vec<NodeId>, outs: &Vec<OutParam<T>>) -> (r: InParam<T>)
    requires
        from@.len() == outs@.len(),
    ensures
        r.tag == tag,
        r.value == filled_value(
            tag,
            default,
            Seq::new(outs@.len(), |i: int| (from@[i], outs@[i].tag, outs@[i].value)),
        ),
{
    let ghost all = Seq::new(outs@.len(), |i: int| (from@[i], outs@[i].tag, outs@[i].value));
    let mut input = InParam::new(tag, default);
    let mut k: usize = 0;
    while k < outs.len()
        invariant
            from@.len() == outs@.len(),
            k <= outs@.len(),
            all == Seq::new(outs@.len(), |i: int| (from@[i], outs@[i].tag, outs@[i].value)),
            input.tag == tag,
            input.value == filled_value(tag, default, all.take(k as int)),
        decreases outs@.len() - k,
    {
        let _ = input.fill_from(from[k], &outs[k]);
        proof {
            assert(all.take(k + 1).drop_last() =~= all.take(k as int));
            assert(all.take(k + 1).last() == all[k as int]);
        }
        k += 1;
    }
    proof {
        assert(all.take(outs@.len() as int) =~= all);
    }
    input
}

/// With no predecessor output of its type, an input keeps its default value, so a node
/// that passes its input through unchanged outputs that default.
pub proof fn lemma_unfilled_input_is_default<T>(tag: TypeId, default: T, outs: Seq<(NodeId, TypeId, T)>)
    requires
        forall|i: int| 0 <= i < outs.len() ==> #[trigger] outs[i].1 != tag,
    ensures
        filled_value(tag, default, outs) == default,
    decreases outs.len(),
{
    if outs.len() > 0 {
        assert(outs.last() == outs[outs.len() - 1]);
        lemma_unfilled_input_is_default(tag, default, outs.drop_last());
    }
}

/// A pass-through node: its output is its input.
pub fn pass_through<T: Copy>(input: &InParam<T>) -> (r: OutParam<T>)
    ensures
        r.tag == input.tag,
        r.value == input.value,
{
    OutParam { tag: input.tag, value: input.value }
}

} // verus!
