use crate::error::MatchError;
use crate::text::same_text;
use vstd::prelude::*;
use vstd::string::StringExecFns;

verus! {

/// The longest interface name, in bytes.
pub const MAX_INTERFACE_LENGTH: usize = 16;

/// The interface filter that selects every interface.
pub open spec fn any_interface() -> Seq<char> {
    seq!['a', 'n', 'y']
}

/// Whether the interface filter lets the interface named `name` through.
pub open spec fn selects(filter: Seq<char>, name: Seq<char>) -> bool {
    filter == any_interface() || name == filter
}

/// What the system must be asked before a match can be decided.
#[derive(Debug, Clone, Copy, PartialEq, Eq, Structural)]
pub enum Lookup {
    /// The wireless network name of each interface.
    Essid,
    /// The addresses and netmasks of each interface.
    Addresses,
}

/// What to look for: a wireless network name, an IPv4 address or a subnet
/// (an empty string where not given), and the interface to look on.
pub struct Roameo {
    interface: String,
    address: String,
    essid: String,
    subnet: String,
}

impl Roameo {
    /// The interface filter.
    pub closed spec fn interface_spec(&self) -> Seq<char> {
        self.interface@
    }

    /// The address to match, or empty.
    pub closed spec fn address_spec(&self) -> Seq<char> {
        self.address@
    }

    /// The wireless network name to match, or empty.
    pub closed spec fn essid_spec(&self) -> Seq<char> {
        self.essid@
    }

    /// The subnet to match, or empty.
    pub closed spec fn subnet_spec(&self) -> Seq<char> {
        self.subnet@
    }

    /// Builds the configuration from the options given; an interface that
    /// is not given selects every interface, a criterion that is not given
    /// is empty.
    pub fn new(
        interface: Option<String>,
        address: Option<String>,
        subnet: Option<String>,
        essid: Option<String>,
    ) -> (r: Result<Roameo, &'static str>)
        ensures
            r is Ok,
            r->Ok_0.interface_spec() == match interface {
                Some(s) => s@,
                None => any_interface(),
            },
            r->Ok_0.address_spec() == match address {
                Some(s) => s@,
                None => Seq::<char>::empty(),
            },
            r->Ok_0.subnet_spec() == match subnet {
                Some(s) => s@,
                None => Seq::<char>::empty(),
            },
            r->Ok_0.essid_spec() == match essid {
                Some(s) => s@,
                None => Seq::<char>::empty(),
            },
    {
        proof {
            reveal_strlit("any");
            reveal_strlit("");
        }
        let interface = match interface {
            Some(s) => s,
            None => String::from_str("any"),
        };
        let address = match address {
            Some(s) => s,
            None => String::from_str(""),
        };
        let subnet = match subnet {
            Some(s) => s,
            None => String::from_str(""),
        };
        let essid = match essid {
            Some(s) => s,
            None => String::from_str(""),
        };
        assert(any_interface() =~= "any"@);
        Ok(Roameo { interface, address, essid, subnet })
    }

    /// The interface filter.
    pub fn interface(&self) -> (r: &str)
        ensures
            r@ == self.interface_spec(),
    {
        self.interface.as_str()
    }

    /// The address to match, or empty.
    pub fn address(&self) -> (r: &str)
        ensures
            r@ == self.address_spec(),
    {
        self.address.as_str()
    }

    /// The wireless network name to match, or empty.
    pub fn essid(&self) -> (r: &str)
        ensures
            r@ == self.essid_spec(),
    {
        self.essid.as_str()
    }

    /// The subnet to match, or empty.
    pub fn subnet(&self) -> (r: &str)
        ensures
            r@ == self.subnet_spec(),
    {
        self.subnet.as_str()
    }

    /// Whether the interface filter lets the interface `name` through.
    pub fn selects(&self, name: &str) -> (r: bool)
        ensures
            r == selects(self.interface_spec(), name@),
    {
        proof {
            reveal_strlit("any");
        }
        assert(any_interface() =~= "any"@);
        same_text(self.interface.as_str(), "any") || same_text(name, self.interface.as_str())
    }

    /// Checks the configuration and says what must be looked up: the
    /// wireless names where a name is to be matched, else the addresses
    /// where an address or a subnet is. An interface filter of more than
    /// 16 bytes is refused first, before anything is looked up.
    pub fn find_match(&self) -> (r: Result<Lookup, MatchError>)
        ensures
            vstd::utf8::encode_utf8(self.interface_spec()).len() > MAX_INTERFACE_LENGTH ==> r
                == Err::<Lookup, MatchError>(MatchError::InterfaceNameTooLong),
            vstd::utf8::encode_utf8(self.interface_spec()).len() <= MAX_INTERFACE_LENGTH ==> r == (
            if self.essid_spec().len() > 0 {
                Ok::<Lookup, MatchError>(Lookup::Essid)
            } else if self.subnet_spec().len() > 0 || self.address_spec().len() > 0 {
                Ok(Lookup::Addresses)
            } else {
                Err(MatchError::NoCriterion)
            }),
    {
        if self.interface.as_str().as_bytes().len() > MAX_INTERFACE_LENGTH {
            return Err(MatchError::InterfaceNameTooLong);
        }
        if !self.essid.as_str().is_empty() {
            Ok(Lookup::Essid)
        } else if !self.subnet.as_str().is_empty() || !self.address.as_str().is_empty() {
            Ok(Lookup::Addresses)
        } else {
            Err(MatchError::NoCriterion)
        }
    }
}

} // verus!
