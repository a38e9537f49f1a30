//! The identity under which a connected client is known.

use vstd::prelude::*;
use vstd::std_specs::cmp::PartialEqSpecImpl;

verus! {

/// The transport address of a client, held as text, such as
/// `10.16.4.22:40123`.
///
/// Two identities are the same client exactly when their texts are equal.
/// The text is also the label under which the client's lines are relayed.
#[derive(Debug)]
pub struct ClientIdentity {
    address: String,
}

impl View for ClientIdentity {
    type V = Seq<char>;

    closed spec fn view(&self) -> Seq<char> {
        self.address@
    }
}

impl DeepView for ClientIdentity {
    type V = Seq<char>;

    open spec fn deep_view(&self) -> Seq<char> {
        self@
    }
}

impl ClientIdentity {
    /// The identity of the client at `address`.
    pub fn new(address: &str) -> (identity: Self)
        ensures
            identity@ == address@,
    {
        ClientIdentity { address: address.to_owned() }
    }

    /// The address text.
    pub fn as_str(&self) -> (text: &str)
        ensures
            text@ == self@,
    {
        self.address.as_str()
    }
}

impl Clone for ClientIdentity {
    fn clone(&self) -> (copy: Self)
        ensures
            copy@ == self@,
    {
        ClientIdentity { address: self.address.clone() }
    }
}

impl PartialEq for ClientIdentity {
    fn eq(&self, other: &Self) -> (same: bool) {
        self.address == other.address
    }
}

impl Eq for ClientIdentity {}

impl PartialEqSpecImpl for ClientIdentity {
    open spec fn obeys_eq_spec() -> bool {
        true
    }

    open spec fn eq_spec(&self, other: &Self) -> bool {
        self@ == other@
    }
}

} // verus!
