use vstd::prelude::*;

verus! {

/// Mathematical image of one row of the `access` table.
pub ghost struct AccessRowV {
    pub id: usize,
    pub user_id: usize,
    pub entity_id: usize,
    pub right: Seq<char>,
}

/// One row of the `access` table: user `user_id` holds `right` on `entity_id`.
#[derive(Clone, Debug)]
pub struct DbTableAccess {
    pub id: usize,
    pub user_id: usize,
    pub entity_id: usize,
    pub right: String,
}

impl View for DbTableAccess {
    type V = AccessRowV;

    open spec fn view(&self) -> AccessRowV {
        AccessRowV {
            id: self.id,
            user_id: self.user_id,
            entity_id: self.entity_id,
            right: self.right@,
        }
    }
}

impl DbTableAccess {
    /// A field-for-field copy; unlike the derived `Clone`, its contract
    /// states that the copy equals the original.
    pub fn duplicate(&self) -> (r: Self)
        ensures
            r == *self,
    {
        DbTableAccess {
            id: self.id,
            user_id: self.user_id,
            entity_id: self.entity_id,
            right: self.right.clone(),
        }
    }
}

/// Mathematical image of one row of the `connection` table.
pub ghost struct ConnectionRowV {
    pub id: usize,
    pub parent_id: usize,
    pub child_id: usize,
}

/// One row of the `connection` table: a directed edge from parent to child.
#[derive(Clone, Copy, Debug)]
pub struct DbTableConnection {
    pub id: usize,
    pub parent_id: usize,
    pub child_id: usize,
}

impl View for DbTableConnection {
    type V = ConnectionRowV;

    open spec fn view(&self) -> ConnectionRowV {
        ConnectionRowV { id: self.id, parent_id: self.parent_id, child_id: self.child_id }
    }
}

/// Mathematical image of one row of the `entity` table.
pub ghost struct EntityRowV {
    pub id: usize,
    pub name: Seq<char>,
    pub external_id: Seq<char>,
}

/// One row of the `entity` table.
#[derive(Clone, Debug)]
pub struct DbTableEntity {
    pub id: usize,
    pub name: String,
    pub external_id: String,
}

impl View for DbTableEntity {
    type V = EntityRowV;

    open spec fn view(&self) -> EntityRowV {
        EntityRowV { id: self.id, name: self.name@, external_id: self.external_id@ }
    }
}

impl DbTableEntity {
    /// A field-for-field copy whose contract states equality with the original.
    pub fn duplicate(&self) -> (r: Self)
        ensures
            r == *self,
    {
        DbTableEntity {
            id: self.id,
            name: self.name.clone(),
            external_id: self.external_id.clone(),
        }
    }
}

/// Mathematical image of one row of the `session` table.
pub ghost struct SessionRowV {
    pub id: usize,
    pub id_string: Seq<char>,
    pub json: Seq<char>,
}

/// One row of the `session` table: an opaque payload under a unique token.
#[derive(Clone, Debug)]
pub struct DbTableSession {
    pub id: usize,
    pub id_string: String,
    pub json: String,
}

impl View for DbTableSession {
    type V = SessionRowV;

    open spec fn view(&self) -> SessionRowV {
        SessionRowV { id: self.id, id_string: self.id_string@, json: self.json@ }
    }
}

impl DbTableSession {
    /// A field-for-field copy whose contract states equality with the original.
    pub fn duplicate(&self) -> (r: Self)
        ensures
            r == *self,
    {
        DbTableSession {
            id: self.id,
            id_string: self.id_string.clone(),
            json: self.json.clone(),
        }
    }
}

} // verus!
