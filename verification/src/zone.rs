//! Zones: what a zone file carries, a start of authority and a list of
//! resource records.

use vstd::prelude::*;

verus! {

/// The start-of-authority parameters of a zone.
#[derive(Debug, PartialEq, Eq)]
pub struct StartOfAuthority {
    pub primary_nameserver: String,
    pub admin_email: String,
    pub serial: u32,
    pub refresh_secs: u32,
    pub retry_secs: u32,
    pub expire_secs: u32,
    pub minimum_ttl_secs: u32,
}

/// A single resource record of a zone.
#[derive(Debug, PartialEq, Eq)]
pub struct Record {
    pub name: String,
    pub record_type: RecordType,
    pub ttl_secs: u32,
    pub value: String,
}

/// The record types that are resolved.
#[derive(Debug, Clone, Copy, PartialEq, Eq, Structural)]
pub enum RecordType {
    A,
    Aaaa,
    Cname,
    Mx,
    Txt,
    Ns,
}

/// A whole zone.
#[derive(Debug, PartialEq, Eq)]
pub struct ZoneFile {
    pub soa: StartOfAuthority,
    pub records: Vec<Record>,
}

impl Clone for StartOfAuthority {
    fn clone(&self) -> (r: Self)
        ensures
            r == *self,
    {
        StartOfAuthority {
            primary_nameserver: self.primary_nameserver.clone(),
            admin_email: self.admin_email.clone(),
            serial: self.serial,
            refresh_secs: self.refresh_secs,
            retry_secs: self.retry_secs,
            expire_secs: self.expire_secs,
            minimum_ttl_secs: self.minimum_ttl_secs,
        }
    }
}

impl Clone for Record {
    fn clone(&self) -> (r: Self)
        ensures
            r == *self,
    {
        Record {
            name: self.name.clone(),
            record_type: self.record_type,
            ttl_secs: self.ttl_secs,
            value: self.value.clone(),
        }
    }
}

impl Clone for ZoneFile {
    fn clone(&self) -> (r: Self)
        ensures
            r.soa == self.soa,
            r.records@ == self.records@,
    {
        ZoneFile { soa: self.soa.clone(), records: copy_records(&self.records) }
    }
}

/// A copy of `records`.
pub fn copy_records(records: &Vec<Record>) -> (r: Vec<Record>)
    ensures
        r@ == records@,
{
    let mut out: Vec<Record> = Vec::new();
    let mut i: usize = 0;
    while i < records.len()
        invariant
            i <= records@.len(),
            out@ == records@.take(i as int),
        decreases records.len() - i,
    {
        out.push(records[i].clone());
        assert(out@ =~= records@.take(i + 1));
        i = i + 1;
    }
    assert(records@.take(i as int) =~= records@);
    out
}

} // verus!
