//! A three-valued answer: `true`, `false`, or "could not be performed".

use vstd::prelude::*;
use vstd::std_specs::convert::FromSpecImpl;

verus! {

/// The flat form of an optional boolean.
///
/// `Error` stands for an operation that could not be performed: an index out
/// of range, or an empty region where a bit was expected.
#[derive(Clone, Copy, Debug, PartialEq, Eq, PartialOrd, Ord, Structural)]
pub enum Tristate {
    /// The operation could not be performed.
    Error,
    /// The operation succeeded and produced `false`.
    False,
    /// The operation succeeded and produced `true`.
    True,
}

impl Tristate {
    /// The tristate that stands for `bit`.
    pub open spec fn of_bool(bit: bool) -> Tristate {
        if bit {
            Tristate::True
        } else {
            Tristate::False
        }
    }

    /// The tristate that stands for `opt`: `Error` for `None`.
    pub open spec fn of_option(opt: Option<bool>) -> Tristate {
        match opt {
            Some(bit) => Tristate::of_bool(bit),
            None => Tristate::Error,
        }
    }

    /// The optional boolean that `self` stands for.
    pub open spec fn as_option(self) -> Option<bool> {
        match self {
            Tristate::Error => None,
            Tristate::False => Some(false),
            Tristate::True => Some(true),
        }
    }

    /// Turns the tristate back into an optional boolean.
    pub fn to_option(self) -> (opt: Option<bool>)
        ensures
            opt == self.as_option(),
            Tristate::of_option(opt) == self,
    {
        match self {
            Tristate::Error => None,
            Tristate::False => Some(false),
            Tristate::True => Some(true),
        }
    }
}

impl From<bool> for Tristate {
    fn from(bit: bool) -> (state: Tristate) {
        if bit {
            Tristate::True
        } else {
            Tristate::False
        }
    }
}

impl FromSpecImpl<bool> for Tristate {
    open spec fn obeys_from_spec() -> bool {
        true
    }

    open spec fn from_spec(bit: bool) -> Tristate {
        Tristate::of_bool(bit)
    }
}

impl From<Option<bool>> for Tristate {
    fn from(opt: Option<bool>) -> (state: Tristate) {
        match opt {
            Some(bit) => Tristate::from(bit),
            None => Tristate::Error,
        }
    }
}

impl FromSpecImpl<Option<bool>> for Tristate {
    open spec fn obeys_from_spec() -> bool {
        true
    }

    open spec fn from_spec(opt: Option<bool>) -> Tristate {
        Tristate::of_option(opt)
    }
}

/// Going to a tristate and back loses nothing.
pub proof fn lemma_tristate_round_trip(opt: Option<bool>)
    ensures
        Tristate::of_option(opt).as_option() == opt,
{
}

} // verus!
