//! Resource records as plain values.

use vstd::prelude::*;

use crate::name::{Name, NameView};
use crate::text;

verus! {

/// A record type, as far as this server tells types apart.
#[derive(Debug, Clone, Copy, PartialEq, Eq, Structural)]
pub enum RecordType {
    A,
    NS,
    CNAME,
    SOA,
    PTR,
    AAAA,
    IXFR,
    AXFR,
    ANY,
    Other(u16),
}

/// A record class.
#[derive(Debug, Clone, Copy, PartialEq, Eq, Structural)]
pub enum DNSClass {
    IN,
    ANY,
    Other(u16),
}

/// The data of an SOA record.
#[derive(Debug, PartialEq, Eq)]
pub struct SoaData {
    pub mname: Name,
    pub rname: Name,
    pub serial: u32,
    pub refresh: i32,
    pub retry: i32,
    pub expire: i32,
    pub minimum: u32,
}

#[verifier::ext_equal]
pub struct SoaDataView {
    pub mname: NameView,
    pub rname: NameView,
    pub serial: u32,
    pub refresh: i32,
    pub retry: i32,
    pub expire: i32,
    pub minimum: u32,
}

impl View for SoaData {
    type V = SoaDataView;

    open spec fn view(&self) -> SoaDataView {
        SoaDataView {
            mname: self.mname@,
            rname: self.rname@,
            serial: self.serial,
            refresh: self.refresh,
            retry: self.retry,
            expire: self.expire,
            minimum: self.minimum,
        }
    }
}

/// The data of a record. Types this server neither serves nor relays keep their
/// number only.
#[derive(Debug, PartialEq, Eq)]
pub enum RData {
    A(u32),
    AAAA(u128),
    NS(Name),
    CNAME(Name),
    PTR(Name),
    SOA(SoaData),
    Other(u16),
}

#[verifier::ext_equal]
pub enum RDataView {
    A(u32),
    AAAA(u128),
    NS(NameView),
    CNAME(NameView),
    PTR(NameView),
    SOA(SoaDataView),
    Other(u16),
}

impl View for RData {
    type V = RDataView;

    open spec fn view(&self) -> RDataView {
        match *self {
            RData::A(a) => RDataView::A(a),
            RData::AAAA(a) => RDataView::AAAA(a),
            RData::NS(n) => RDataView::NS(n@),
            RData::CNAME(n) => RDataView::CNAME(n@),
            RData::PTR(n) => RDataView::PTR(n@),
            RData::SOA(soa) => RDataView::SOA(soa@),
            RData::Other(t) => RDataView::Other(t),
        }
    }
}

impl RDataView {
    /// The type of record that holds this data.
    pub open spec fn kind(self) -> RecordType {
        match self {
            RDataView::A(_) => RecordType::A,
            RDataView::AAAA(_) => RecordType::AAAA,
            RDataView::NS(_) => RecordType::NS,
            RDataView::CNAME(_) => RecordType::CNAME,
            RDataView::PTR(_) => RecordType::PTR,
            RDataView::SOA(_) => RecordType::SOA,
            RDataView::Other(t) => RecordType::Other(t),
        }
    }
}

/// A resource record.
#[derive(Debug, PartialEq, Eq)]
pub struct Record {
    pub name: Name,
    pub ttl: u32,
    pub dns_class: DNSClass,
    pub data: RData,
}

#[verifier::ext_equal]
pub struct RecordView {
    pub name: NameView,
    pub ttl: u32,
    pub dns_class: DNSClass,
    pub data: RDataView,
}

impl View for Record {
    type V = RecordView;

    open spec fn view(&self) -> RecordView {
        RecordView {
            name: self.name@,
            ttl: self.ttl,
            dns_class: self.dns_class,
            data: self.data@,
        }
    }
}

/// A record of class IN.
pub open spec fn internet_record(name: NameView, ttl: u32, data: RDataView) -> RecordView {
    RecordView { name, ttl, dns_class: DNSClass::IN, data }
}

impl Record {
    /// A record of class IN that holds `data`.
    pub fn from_rdata(name: Name, ttl: u32, data: RData) -> (r: Record)
        ensures
            r@ == internet_record(name@, ttl, data@),
    {
        Record { name, ttl, dns_class: DNSClass::IN, data }
    }

    /// The type of the record.
    pub fn record_type(&self) -> (r: RecordType)
        ensures
            r == self@.data.kind(),
    {
        match &self.data {
            RData::A(_) => RecordType::A,
            RData::AAAA(_) => RecordType::AAAA,
            RData::NS(_) => RecordType::NS,
            RData::CNAME(_) => RecordType::CNAME,
            RData::PTR(_) => RecordType::PTR,
            RData::SOA(_) => RecordType::SOA,
            RData::Other(t) => RecordType::Other(*t),
        }
    }
}

/// The only record there is.
pub fn one_record(record: Record) -> (r: Vec<Record>)
    ensures
        text::views(r@) == seq![record@],
{
    let mut out: Vec<Record> = Vec::new();
    out.push(record);
    assert(text::views(out@) =~= seq![record@]);
    out
}

/// No record at all.
pub fn no_records() -> (r: Vec<Record>)
    ensures
        text::views(r@) == Seq::<RecordView>::empty(),
{
    let out: Vec<Record> = Vec::new();
    assert(text::views(out@) =~= Seq::empty());
    out
}

/// A record we make is of class IN, with the owner, the TTL and the data it was given,
/// and its type is that of its data.
pub proof fn law_records_hold_what_they_were_given(name: NameView, ttl: u32, data: RDataView)
    ensures
        internet_record(name, ttl, data) == (RecordView {
            name,
            ttl,
            dns_class: DNSClass::IN,
            data,
        }),
        data.kind() == (match data {
            RDataView::A(_) => RecordType::A,
            RDataView::AAAA(_) => RecordType::AAAA,
            RDataView::NS(_) => RecordType::NS,
            RDataView::CNAME(_) => RecordType::CNAME,
            RDataView::PTR(_) => RecordType::PTR,
            RDataView::SOA(_) => RecordType::SOA,
            RDataView::Other(number) => RecordType::Other(number),
        }),
{
}

} // verus!
