//! One button of the window: the text it shows and the text it copies.

use crate::escape::{decode, decode_escapes, has_escape};
use vstd::prelude::*;

verus! {

/// What a [`ButtonConfig`] holds, as plain sequences of characters.
#[verifier::ext_equal]
pub struct Entry {
    /// The text shown on the button.
    pub label: Seq<char>,
    /// The text copied to the clipboard when the button is activated.
    pub payload: Seq<char>,
}

/// A label and the payload that goes with it. The payload is stored decoded:
/// it never holds an escape.
#[derive(Debug, PartialEq, Eq)]
pub struct ButtonConfig {
    label: String,
    payload: String,
}

impl View for ButtonConfig {
    type V = Entry;

    closed spec fn view(&self) -> Entry {
        Entry { label: self.label@, payload: self.payload@ }
    }
}

impl DeepView for ButtonConfig {
    type V = Entry;

    open spec fn deep_view(&self) -> Entry {
        self@
    }
}

impl Clone for ButtonConfig {
    fn clone(&self) -> (r: ButtonConfig)
        ensures
            r@ == self@,
    {
        proof {
            use_type_invariant(self);
        }
        ButtonConfig { label: self.label.clone(), payload: self.payload.clone() }
    }
}

impl ButtonConfig {
    #[verifier::type_invariant]
    spec fn payload_is_decoded(&self) -> bool {
        !has_escape(self.payload@)
    }

    /// Makes an entry from a label, taken as it is, and a payload still in
    /// its written form, whose escapes are decoded.
    pub fn new(label: &str, raw_payload: &str) -> (r: ButtonConfig)
        ensures
            r@ == (Entry { label: label@, payload: decode(raw_payload@) }),
    {
        ButtonConfig { label: label.to_owned(), payload: decode_escapes(raw_payload) }
    }

    /// Puts together a label and a payload that is already decoded.
    pub(crate) fn from_decoded(label: String, payload: String) -> (r: ButtonConfig)
        requires
            !has_escape(payload@),
        ensures
            r@ == (Entry { label: label@, payload: payload@ }),
    {
        ButtonConfig { label, payload }
    }

    /// The text shown on the button.
    pub fn label(&self) -> (r: &str)
        ensures
            r@ == self@.label,
    {
        self.label.as_str()
    }

    /// The text copied to the clipboard. It holds no escape.
    pub fn payload(&self) -> (r: &str)
        ensures
            r@ == self@.payload,
            !has_escape(r@),
    {
        proof {
            use_type_invariant(self);
        }
        self.payload.as_str()
    }
}

} // verus!
