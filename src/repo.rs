use vstd::prelude::*;

verus! {

/// A record as it is stored: an id and a name.
#[derive(Debug)]
pub struct DbData {
    pub id: i64,
    pub name: String,
}

/// A record as the rest of the application sees it.
#[derive(Debug)]
pub struct Data {
    pub id: i64,
    pub name: String,
}

impl DbData {
    pub fn new(id: i64, name: String) -> (r: DbData)
        ensures
            r.id == id,
            r.name@ == name@,
    {
        DbData { id, name }
    }
}

impl From<DbData> for Data {
    fn from(d: DbData) -> (r: Data) {
        Data { id: d.id, name: d.name }
    }
}

impl vstd::std_specs::convert::FromSpecImpl<DbData> for Data {
    open spec fn obeys_from_spec() -> bool {
        true
    }

    open spec fn from_spec(d: DbData) -> Data {
        Data { id: d.id, name: d.name }
    }
}

/// Access to stored records.
pub trait IRepository {
    fn get(&self, id: i64) -> Result<DbData, String>;

    fn get_all(&self) -> Result<Vec<DbData>, String>;
}

} // verus!
