use vstd::prelude::*;

verus! {

/// The transfer function attached to a layer. Stateless: each variant names a
/// pure elementwise function and its derivative, applied by the float
/// inference and training paths, and an integer approximation applied by the
/// quantized inference path.
#[derive(Clone, Copy, Debug, PartialEq, Eq, Structural)]
pub enum ActivationFunction {
    ReLU,
    Sigmoid,
    Linear,
}

impl ActivationFunction {
    /// The numeric tag under which this variant is stored in model files.
    pub open spec fn tag_spec(self) -> u32 {
        match self {
            ActivationFunction::ReLU => 0,
            ActivationFunction::Sigmoid => 1,
            ActivationFunction::Linear => 2,
        }
    }

    /// The variant stored under a numeric tag, if the tag is valid.
    pub open spec fn from_tag_spec(tag: u32) -> Option<ActivationFunction> {
        if tag == 0 {
            Some(ActivationFunction::ReLU)
        } else if tag == 1 {
            Some(ActivationFunction::Sigmoid)
        } else if tag == 2 {
            Some(ActivationFunction::Linear)
        } else {
            None
        }
    }

    pub fn tag(self) -> (t: u32)
        ensures
            t == self.tag_spec(),
    {
        match self {
            ActivationFunction::ReLU => 0,
            ActivationFunction::Sigmoid => 1,
            ActivationFunction::Linear => 2,
        }
    }

    pub fn from_tag(tag: u32) -> (r: Option<ActivationFunction>)
        ensures
            r == Self::from_tag_spec(tag),
    {
        if tag == 0 {
            Some(ActivationFunction::ReLU)
        } else if tag == 1 {
            Some(ActivationFunction::Sigmoid)
        } else if tag == 2 {
            Some(ActivationFunction::Linear)
        } else {
            None
        }
    }
}

/// Round trip between a variant and its stored tag: every variant is
/// recovered exactly from the tag it writes.
pub proof fn lemma_activation_tag_round_trip(a: ActivationFunction)
    ensures
        ActivationFunction::from_tag_spec(a.tag_spec()) == Some(a),
{
}

} // verus!
