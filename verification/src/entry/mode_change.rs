//! Changes of mode: the byte order of the values that name none.

use vstd::prelude::*;
use crate::error::Error;
use crate::error::ErrorView;
use crate::state::EntryState;
use crate::state::Outcome;
use crate::state::StateOperation;
use crate::state::StateView;
use crate::state::lemma_extends_reflexive;
use crate::text::str_eq;
use crate::to_bytes::Endianness;
use crate::token::Ident;
use crate::token::IdentView;

verus! {

/// `name` names the mode that holds the byte order: `endian_mode`, the one
/// mode that there is.
pub open spec fn is_endian_mode(name: Seq<char>) -> bool {
    name == "endian_mode"@
}

/// The byte order that `name` stands for as the value of the mode.
pub open spec fn endian_mode_of(name: Seq<char>) -> Option<Endianness> {
    if name == "le"@ {
        Some(Endianness::Little)
    } else if name == "be"@ {
        Some(Endianness::Big)
    } else if name == "ne"@ {
        Some(Endianness::Native)
    } else {
        None
    }
}

/// A change of mode: the name of the mode and its new value.
#[derive(Debug, Clone, PartialEq, Eq)]
pub struct ModeChange {
    pub mode: Ident,
    pub new_mode: Ident,
}

/// The mathematical form of a [`ModeChange`].
pub struct ModeChangeView {
    pub mode: IdentView,
    pub new_mode: IdentView,
}

impl View for ModeChange {
    type V = ModeChangeView;

    open spec fn view(&self) -> ModeChangeView {
        ModeChangeView { mode: self.mode@, new_mode: self.new_mode@ }
    }
}

/// The state after a change of mode has been applied to `state`: the named
/// byte order is the one in force, from here on and whatever block the change
/// stands in.
pub open spec fn mode_change_effect(change: ModeChangeView, state: StateView) -> Outcome {
    if !is_endian_mode(change.mode.name) {
        Outcome { state, result: Err(ErrorView::UnknownMode { site: change.mode.site }) }
    } else {
        match endian_mode_of(change.new_mode.name) {
            Some(mode) => Outcome { state: state.with_endian_mode(mode), result: Ok(()) },
            None => Outcome {
                state,
                result: Err(ErrorView::InvalidEndianMode { site: change.new_mode.site }),
            },
        }
    }
}

impl StateOperation for ModeChange {
    open spec fn effect(&self, state: StateView) -> Outcome {
        mode_change_effect(self@, state)
    }

    fn apply_to(&self, state: &mut EntryState) -> (r: Result<(), Error>) {
        let mode_str: &str = self.mode.name.as_str();
        if !str_eq(mode_str, "endian_mode") {
            return Err(Error::UnknownMode { site: self.mode.site });
        }
        let new_mode_str: &str = self.new_mode.name.as_str();
        let new_mode: Endianness = if str_eq(new_mode_str, "le") {
            Endianness::Little
        } else if str_eq(new_mode_str, "be") {
            Endianness::Big
        } else if str_eq(new_mode_str, "ne") {
            Endianness::Native
        } else {
            return Err(Error::InvalidEndianMode { site: self.new_mode.site });
        };
        state.set_endian_mode(new_mode);
        Ok(())
    }
}

/// A change of mode leaves all but the mode as it was.
pub proof fn lemma_mode_change_follows(change: ModeChangeView, state: StateView)
    ensures
        mode_change_effect(change, state).follows(state),
{
    lemma_extends_reflexive(state);
}

} // verus!
