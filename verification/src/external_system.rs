#![verifier::loop_isolation(false)]

use vstd::prelude::*;
use vstd::string::StringExecFns;
use crate::text::{lower_of, to_lowercase};
use crate::util::str_eq;

verus! {

broadcast use vstd::string::group_string_axioms;

/// The identity provider a user record came from.
#[derive(Clone, Copy, Debug, PartialEq, Eq, Structural)]
pub enum ExternalSystem {
    ORCID,
    GOOGLE,
    Unknown,
}

/// The provider a case-insensitive name denotes.
pub open spec fn system_of(s: Seq<char>) -> ExternalSystem {
    if lower_of(s) == "orcid"@ {
        ExternalSystem::ORCID
    } else if lower_of(s) == "google"@ {
        ExternalSystem::GOOGLE
    } else {
        ExternalSystem::Unknown
    }
}

impl ExternalSystem {
    /// The canonical name of the provider.
    pub open spec fn spec_str(&self) -> Seq<char> {
        match self {
            ExternalSystem::ORCID => "orcid"@,
            ExternalSystem::GOOGLE => "google"@,
            ExternalSystem::Unknown => ""@,
        }
    }

    /// The canonical name of the provider, empty for an unknown one.
    pub fn as_str(&self) -> (r: &str)
        ensures
            r@ == self.spec_str(),
    {
        match self {
            ExternalSystem::ORCID => "orcid",
            ExternalSystem::GOOGLE => "google",
            ExternalSystem::Unknown => "",
        }
    }

    /// The public profile address of an account of this provider; only the
    /// first provider exposes one.
    pub fn as_url(&self, external_id: &str) -> (r: String)
        ensures
            r@ == match self {
                ExternalSystem::ORCID => "https://orcid.org/"@ + external_id@,
                ExternalSystem::GOOGLE => Seq::<char>::empty(),
                ExternalSystem::Unknown => Seq::<char>::empty(),
            },
    {
        match self {
            ExternalSystem::ORCID => {
                let r = String::from_str("https://orcid.org/").concat(external_id);
                r
            },
            ExternalSystem::GOOGLE => String::new(),
            ExternalSystem::Unknown => String::new(),
        }
    }

    /// Parse a provider name, case-insensitively; anything unrecognised maps
    /// to `Unknown`.
    pub fn from_str(s: &str) -> (r: Self)
        ensures
            r == system_of(s@),
            (r == ExternalSystem::ORCID) <==> lower_of(s@) == "orcid"@,
            (r == ExternalSystem::GOOGLE) <==> lower_of(s@) == "google"@,
            (r == ExternalSystem::Unknown) <==> (lower_of(s@) != "orcid"@ && lower_of(s@)
                != "google"@),
    {
        proof {
            reveal_strlit("orcid");
            reveal_strlit("google");
            assert("orcid"@.len() == 5);
            assert("google"@.len() == 6);
            assert("orcid"@ != "google"@);
        }
        let lower = to_lowercase(s);
        if str_eq(lower.as_str(), "orcid") {
            ExternalSystem::ORCID
        } else if str_eq(lower.as_str(), "google") {
            ExternalSystem::GOOGLE
        } else {
            ExternalSystem::Unknown
        }
    }
}

/// Mathematical image of one row of the `user` table.
pub ghost struct UserRowV {
    pub id: Option<u64>,
    pub system: ExternalSystem,
    pub name: Seq<char>,
    pub email: Seq<char>,
    pub external_id: Seq<char>,
    pub bespoke_data: Seq<char>,
}

/// A user record linked to an external identity. `bespoke_data` is an opaque
/// serialized document; the engine enforces no schema on it.
#[derive(Clone, Debug)]
pub struct ExternalSystemUser {
    pub id: Option<u64>,
    pub system: ExternalSystem,
    pub name: String,
    pub email: String,
    pub external_id: String,
    pub bespoke_data: String,
}

impl View for ExternalSystemUser {
    type V = UserRowV;

    open spec fn view(&self) -> UserRowV {
        UserRowV {
            id: self.id,
            system: self.system,
            name: self.name@,
            email: self.email@,
            external_id: self.external_id@,
            bespoke_data: self.bespoke_data@,
        }
    }
}

impl ExternalSystemUser {
    /// A copy of the record whose contract states that nothing changes.
    pub fn duplicate(&self) -> (r: Self)
        ensures
            r@ == self@,
    {
        ExternalSystemUser {
            id: self.id,
            system: self.system,
            name: self.name.clone(),
            email: self.email.clone(),
            external_id: self.external_id.clone(),
            bespoke_data: self.bespoke_data.clone(),
        }
    }

    /// Blank the fields that must not leave the service: the opaque provider
    /// payload is replaced by the serialized null document, the email by the
    /// empty string.
    pub fn strip_private_data(&mut self)
        ensures
            final(self)@ == (UserRowV {
                email: Seq::<char>::empty(),
                bespoke_data: "null"@,
                ..old(self)@
            }),
    {
        self.bespoke_data = String::from_str("null");
        self.email = String::new();
    }

    /// The public profile address of the record's external identity.
    pub fn external_url(&self) -> (r: String)
        ensures
            r@ == match self.system {
                ExternalSystem::ORCID => "https://orcid.org/"@ + self.external_id@,
                ExternalSystem::GOOGLE => Seq::<char>::empty(),
                ExternalSystem::Unknown => Seq::<char>::empty(),
            },
    {
        self.system.as_url(self.external_id.as_str())
    }
}

/// Mathematical image of one row of the `access_request` table.
pub ghost struct RequestRowV {
    pub id: usize,
    pub user_id: usize,
    pub entity_id: usize,
    pub note: Seq<char>,
}

/// A pending access request: a user asking for rights on an entity.
#[derive(Clone, Debug)]
pub struct ExternalAccessRequest {
    pub id: usize,
    pub user_id: usize,
    pub entity_id: usize,
    pub note: String,
}

impl View for ExternalAccessRequest {
    type V = RequestRowV;

    open spec fn view(&self) -> RequestRowV {
        RequestRowV {
            id: self.id,
            user_id: self.user_id,
            entity_id: self.entity_id,
            note: self.note@,
        }
    }
}

impl ExternalAccessRequest {
    /// A copy of the request whose contract states that nothing changes.
    pub fn duplicate(&self) -> (r: Self)
        ensures
            r == *self,
    {
        ExternalAccessRequest {
            id: self.id,
            user_id: self.user_id,
            entity_id: self.entity_id,
            note: self.note.clone(),
        }
    }
}

} // verus!
