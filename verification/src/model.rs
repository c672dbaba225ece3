use vstd::prelude::*;

verus! {

/// A monitored network endpoint with a stable identifier.
pub struct Server {
    pub id: i64,
    pub name: String,
    pub address: String,
    pub port: i64,
    pub created_at: String,
}

/// One stored probe outcome for a server: the timestamp is assigned by the
/// store at append time, and the occupancy, version and message fields are
/// supplied by the prober only for an online outcome.
#[derive(Debug, PartialEq)]
pub struct PingResult {
    pub id: i64,
    pub server_id: i64,
    pub pinged_at: String,
    pub online: bool,
    pub players_online: Option<i64>,
    pub players_max: Option<i64>,
    pub version: Option<String>,
    pub motd: Option<String>,
}

/// An administrator account.
pub struct AdminUser {
    pub id: i64,
    pub username: String,
    pub password_hash: String,
    pub created_at: String,
}

impl Clone for PingResult {
    fn clone(&self) -> (r: Self)
        ensures
            r == *self,
    {
        PingResult {
            id: self.id,
            server_id: self.server_id,
            pinged_at: self.pinged_at.clone(),
            online: self.online,
            players_online: match self.players_online {
                Some(n) => Some(n),
                None => None,
            },
            players_max: match self.players_max {
                Some(n) => Some(n),
                None => None,
            },
            version: match &self.version {
                Some(v) => Some(v.clone()),
                None => None,
            },
            motd: match &self.motd {
                Some(m) => Some(m.clone()),
                None => None,
            },
        }
    }
}

impl Clone for Server {
    fn clone(&self) -> (r: Self)
        ensures
            r == *self,
    {
        Server {
            id: self.id,
            name: self.name.clone(),
            address: self.address.clone(),
            port: self.port,
            created_at: self.created_at.clone(),
        }
    }
}

/// The requested history window: one day by default, or the wider ranges that
/// the downsampler compresses.
#[derive(Clone, Copy, Debug, PartialEq, Eq, Structural)]
pub enum QueryRange {
    Day,
    Week,
    Month,
}

} // verus!
