// the `/status` answer: per-database availability of the two services.
use vstd::prelude::*;
use crate::text::to_owned_string;

verus! {

/// The status answer: whether every service of every database is available, and each database.
pub struct status_output {
    pub is_ok: bool,
    pub databases: Vec<database_status>,
}

/// One database: its file, and whether each of its two services is available.
pub struct database_status {
    pub file: String,
    pub text_to_address: bool,
    pub coordinates_to_address: bool,
}

/// The answer for one database: `is_ok` exactly when both of its services are available.
pub fn assemble(file: &str, text_to_address: bool, coordinates_to_address: bool) -> (out:
    status_output)
    ensures
        out.is_ok == (text_to_address && coordinates_to_address),
        out.databases@.len() == 1,
        out.databases@[0].file@ == file@,
        out.databases@[0].text_to_address == text_to_address,
        out.databases@[0].coordinates_to_address == coordinates_to_address,
{
    let database = database_status {
        file: to_owned_string(file),
        text_to_address,
        coordinates_to_address,
    };
    let is_ok = database.text_to_address && database.coordinates_to_address;
    let mut databases: Vec<database_status> = Vec::new();
    databases.push(database);
    status_output { is_ok, databases }
}

} // verus!
