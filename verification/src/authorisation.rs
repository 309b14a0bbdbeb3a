//! The right of a user to a field of a dataset. Two rights are equal, and
//! ordered, by the field they are for alone.
use crate::data_store::FieldId;
use std::cmp::Ordering;
use vstd::prelude::*;
use vstd::std_specs::cmp::{PartialEqSpecImpl, PartialOrdSpecImpl};

verus! {

#[derive(Clone, Copy, Debug)]
pub enum Authorisation {
    Owner(FieldId),
    Reader(FieldId),
}

impl Authorisation {
    /// The field this right is for.
    pub open spec fn field(self) -> FieldId {
        match self {
            Authorisation::Owner(id) => id,
            Authorisation::Reader(id) => id,
        }
    }

    /// The field this right is for.
    pub fn field_id(&self) -> (id: FieldId)
        ensures
            id == self.field(),
    {
        match self {
            Authorisation::Owner(id) => *id,
            Authorisation::Reader(id) => *id,
        }
    }
}

impl PartialEq for Authorisation {
    fn eq(&self, other: &Self) -> (r: bool) {
        self.field_id() == other.field_id()
    }
}

impl PartialEqSpecImpl for Authorisation {
    open spec fn obeys_eq_spec() -> bool {
        true
    }

    open spec fn eq_spec(&self, other: &Authorisation) -> bool {
        self.field() == other.field()
    }
}

/// Order of two field ids.
pub open spec fn field_order(a: FieldId, b: FieldId) -> Option<Ordering> {
    if a < b {
        Some(Ordering::Less)
    } else if a == b {
        Some(Ordering::Equal)
    } else {
        Some(Ordering::Greater)
    }
}

impl PartialOrd for Authorisation {
    fn partial_cmp(&self, other: &Self) -> (r: Option<Ordering>) {
        let a = self.field_id();
        let b = other.field_id();
        if a < b {
            Some(Ordering::Less)
        } else if a == b {
            Some(Ordering::Equal)
        } else {
            Some(Ordering::Greater)
        }
    }
}

impl PartialOrdSpecImpl for Authorisation {
    open spec fn obeys_partial_cmp_spec() -> bool {
        true
    }

    open spec fn partial_cmp_spec(&self, other: &Authorisation) -> Option<Ordering> {
        field_order(self.field(), other.field())
    }
}

} // verus!
