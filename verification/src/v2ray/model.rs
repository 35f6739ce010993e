//! The messages of the rule files.

use vstd::prelude::*;

verus! {

/// The value that an attribute carries.
#[derive(Clone, Copy, Debug, PartialEq, Eq, Structural)]
pub enum TypedValue {
    BoolValue(bool),
    IntValue(i64),
}

/// A mark on a domain.
#[derive(Clone, Debug, PartialEq, Eq)]
pub struct Attribute {
    pub key: String,
    pub typed_value: Option<TypedValue>,
}

/// How the value of a domain is matched.
#[derive(Clone, Copy, Debug, PartialEq, Eq, Structural)]
pub enum DomainType {
    /// The value occurs in the name.
    Plain,
    /// The value is a regular expression.
    Regex,
    /// The name is the value or lies below it.
    RootDomain,
    /// The name is the value.
    Full,
}

/// One domain rule.
#[derive(Clone, Debug, PartialEq, Eq)]
pub struct Domain {
    /// The number of the domain's type, as the file has it.
    pub kind: i32,
    pub value: String,
    pub attribute: Vec<Attribute>,
}

/// One address block.
#[derive(Clone, Debug, PartialEq, Eq)]
pub struct Cidr {
    /// The address, four or sixteen bytes in network order.
    pub ip: Vec<u8>,
    pub prefix: u32,
}

/// A named list of address blocks.
#[derive(Clone, Debug, PartialEq, Eq)]
pub struct GeoIp {
    pub country_code: String,
    pub cidr: Vec<Cidr>,
    pub inverse_match: bool,
    pub resource_hash: Vec<u8>,
    pub code: String,
    pub file_path: String,
}

/// The contents of a `geoip.dat` file.
#[derive(Clone, Debug, PartialEq, Eq)]
pub struct GeoIpList {
    pub entry: Vec<GeoIp>,
}

/// A named list of domain rules.
#[derive(Clone, Debug, PartialEq, Eq)]
pub struct GeoSite {
    pub country_code: String,
    pub domain: Vec<Domain>,
    pub resource_hash: Vec<u8>,
    pub code: String,
    pub file_path: String,
}

/// The contents of a `geosite.dat` file.
#[derive(Clone, Debug, PartialEq, Eq)]
pub struct GeoSiteList {
    pub entry: Vec<GeoSite>,
}

#[verifier::ext_equal]
pub struct AttributeView {
    pub key: Seq<char>,
    pub typed_value: Option<TypedValue>,
}

#[verifier::ext_equal]
pub struct DomainView {
    pub kind: i32,
    pub value: Seq<char>,
    pub attribute: Seq<AttributeView>,
}

#[verifier::ext_equal]
pub struct CidrView {
    pub ip: Seq<u8>,
    pub prefix: u32,
}

#[verifier::ext_equal]
pub struct GeoIpView {
    pub country_code: Seq<char>,
    pub cidr: Seq<CidrView>,
    pub inverse_match: bool,
    pub resource_hash: Seq<u8>,
    pub code: Seq<char>,
    pub file_path: Seq<char>,
}

#[verifier::ext_equal]
pub struct GeoSiteView {
    pub country_code: Seq<char>,
    pub domain: Seq<DomainView>,
    pub resource_hash: Seq<u8>,
    pub code: Seq<char>,
    pub file_path: Seq<char>,
}

impl View for Attribute {
    type V = AttributeView;

    open spec fn view(&self) -> AttributeView {
        AttributeView { key: self.key@, typed_value: self.typed_value }
    }
}

impl View for Domain {
    type V = DomainView;

    open spec fn view(&self) -> DomainView {
        DomainView {
            kind: self.kind,
            value: self.value@,
            attribute: self.attribute@.map_values(|a: Attribute| a@),
        }
    }
}

impl View for Cidr {
    type V = CidrView;

    open spec fn view(&self) -> CidrView {
        CidrView { ip: self.ip@, prefix: self.prefix }
    }
}

impl View for GeoIp {
    type V = GeoIpView;

    open spec fn view(&self) -> GeoIpView {
        GeoIpView {
            country_code: self.country_code@,
            cidr: self.cidr@.map_values(|c: Cidr| c@),
            inverse_match: self.inverse_match,
            resource_hash: self.resource_hash@,
            code: self.code@,
            file_path: self.file_path@,
        }
    }
}

impl View for GeoIpList {
    type V = Seq<GeoIpView>;

    open spec fn view(&self) -> Seq<GeoIpView> {
        self.entry@.map_values(|e: GeoIp| e@)
    }
}

impl View for GeoSite {
    type V = GeoSiteView;

    open spec fn view(&self) -> GeoSiteView {
        GeoSiteView {
            country_code: self.country_code@,
            domain: self.domain@.map_values(|d: Domain| d@),
            resource_hash: self.resource_hash@,
            code: self.code@,
            file_path: self.file_path@,
        }
    }
}

impl View for GeoSiteList {
    type V = Seq<GeoSiteView>;

    open spec fn view(&self) -> Seq<GeoSiteView> {
        self.entry@.map_values(|e: GeoSite| e@)
    }
}

} // verus!
