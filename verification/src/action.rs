use vstd::prelude::*;

verus! {

/// A tagged request or notification crossing the guest/host boundary.
///
/// On the wire an action is a single byte: `LOG` is 0, `QUERY` is 1
/// (further codes are sequential), `TEST` is 254 and `INVALID` is 255.
/// `INVALID` doubles as the sentinel: any unrecognized byte decodes to it.
#[derive(Debug, Clone, Copy, PartialEq, Eq, Structural)]
pub enum Action {
    LOG,
    QUERY,
    TEST,
    INVALID,
}

impl Action {
    /// The wire code of this action.
    pub open spec fn spec_code(self) -> u8 {
        match self {
            Action::LOG => 0,
            Action::QUERY => 1,
            Action::TEST => 254,
            Action::INVALID => 255,
        }
    }

    /// The action a wire byte decodes to; unrecognized bytes yield `INVALID`.
    pub open spec fn spec_from_code(code: u8) -> Action {
        if code == 0 {
            Action::LOG
        } else if code == 1 {
            Action::QUERY
        } else if code == 254 {
            Action::TEST
        } else {
            Action::INVALID
        }
    }

    #[verifier::when_used_as_spec(spec_code)]
    pub fn code(self) -> (r: u8)
        ensures
            r == self.spec_code(),
    {
        match self {
            Action::LOG => 0,
            Action::QUERY => 1,
            Action::TEST => 254,
            Action::INVALID => 255,
        }
    }

    #[verifier::when_used_as_spec(spec_from_code)]
    pub fn from_code(code: u8) -> (r: Action)
        ensures
            r == Action::spec_from_code(code),
    {
        if code == 0 {
            Action::LOG
        } else if code == 1 {
            Action::QUERY
        } else if code == 254 {
            Action::TEST
        } else {
            Action::INVALID
        }
    }
}

/// Decoding is a retraction of encoding: every action's own code decodes
/// back to that action.
pub proof fn lemma_action_code_round_trip(a: Action)
    ensures
        Action::spec_from_code(a.spec_code()) == a,
{
}

} // verus!
