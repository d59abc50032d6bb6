//! Resource records (RFC 1035, section 4.1.3) and the RDATA of the types
//! this crate knows.
use vstd::prelude::*;
use vstd::slice::slice_subrange;
use vstd::string::StringSliceAdditionalSpecFns;
use vstd::utf8::valid_utf8;

use crate::error::{Error, Result};
use crate::name::{spec_parse_name, spec_write_name, DnsName, Labels, NamePositions};
use crate::rdata_wire::{
    bytes_to_hex_string, opt_options, options_bytes, txt_bytes, txt_strings, txt_text,
};
use crate::text::{str_from_utf8, string_bytes, string_from_ascii, text_bytes};
use crate::types::{class_code, class_of, record_type_code, record_type_of, Class, RecordType};
use crate::wire::{
    be16, be32, copy_range, push_bytes, push_u16, push_u32, read_u16, read_u32, u16_at, u32_at,
};

verus! {

/// DNS Resource Record
///
/// ```text
/// +--+--+--+--+--+--+--+--+--+--+--+--+--+--+--+--+
/// /                      NAME                     /
/// +--+--+--+--+--+--+--+--+--+--+--+--+--+--+--+--+
/// |                      TYPE                     |
/// |                     CLASS                     |
/// |                      TTL                      |
/// |                                               |
/// |                   RDLENGTH                    |
/// +--+--+--+--+--+--+--+--+--+--+--+--+--+--+--+--|
/// /                     RDATA                     /
/// +--+--+--+--+--+--+--+--+--+--+--+--+--+--+--+--+
/// ```
#[derive(Debug, Clone)]
pub struct ResourceRecord {
    pub name: DnsName,
    pub record_type: RecordType,
    pub class: Class,
    pub ttl: u32,
    pub data: RData,
}

/// Resource Record Data
#[derive(Debug, Clone)]
pub enum RData {
    /// A Record - IPv4 Address (RFC 1035), as its four octets
    A([u8; 4]),
    /// AAAA Record - IPv6 Address (RFC 3596), as its sixteen octets
    AAAA([u8; 16]),
    /// CNAME Record - Canonical Name (RFC 1035)
    CNAME(DnsName),
    /// NS Record - Name Server (RFC 1035)
    NS(DnsName),
    /// MX Record - Mail Exchange (RFC 1035); lower preference values are preferred
    MX { preference: u16, exchange: DnsName },
    /// PTR Record - Pointer (RFC 1035)
    PTR(DnsName),
    /// SOA Record - Start of Authority (RFC 1035)
    SOA {
        mname: DnsName,
        rname: DnsName,
        serial: u32,
        refresh: u32,
        retry: u32,
        expire: u32,
        minimum: u32,
    },
    /// TXT Record - Text (RFC 1035)
    TXT(Vec<String>),
    /// SRV Record - Service (RFC 2782)
    SRV { priority: u16, weight: u16, port: u16, target: DnsName },
    /// OPT Record - Option (RFC 6891 - EDNS(0))
    OPT {
        udp_payload_size: u16,
        extended_rcode: u8,
        version: u8,
        flags: u16,
        options: Vec<(u16, Vec<u8>)>,
    },
    /// DS Record - Delegation Signer (RFC 4034)
    DS { key_tag: u16, algorithm: u8, digest_type: u8, digest: Vec<u8> },
    /// RRSIG Record - DNSSEC Signature (RFC 4034)
    RRSIG {
        /// Type of the covered record
        type_covered: u16,
        /// Cryptographic algorithm
        algorithm: u8,
        /// Number of labels in the original name
        labels: u8,
        /// Original TTL
        original_ttl: u32,
        /// Signature expiration time
        signature_expiration: u32,
        /// Signature inception time
        signature_inception: u32,
        /// Key tag
        key_tag: u16,
        /// Signer's name
        signer_name: DnsName,
        /// Signature data
        signature: Vec<u8>,
    },
    /// NSEC Record - Next Secure Record (RFC 4034)
    NSEC {
        /// Next domain name
        next_domain_name: DnsName,
        /// Type bit maps
        type_bit_maps: Vec<u8>,
    },
    /// DNSKEY Record - DNS Key Record (RFC 4034)
    DNSKEY { flags: u16, protocol: u8, algorithm: u8, public_key: Vec<u8> },
    /// NSEC3 Record - NSEC version 3 (RFC 5155)
    NSEC3 {
        hash_algorithm: u8,
        flags: u8,
        iterations: u16,
        salt: Vec<u8>,
        next_hashed_owner_name: Vec<u8>,
        type_bit_maps: Vec<u8>,
    },
    /// NSEC3PARAM Record - NSEC3 Parameters (RFC 5155)
    NSEC3PARAM { hash_algorithm: u8, flags: u8, iterations: u16, salt: Vec<u8> },
    /// CAA Record - Certification Authority Authorization (RFC 6844/8659)
    CAA { flags: u8, tag: String, value: Vec<u8> },
    /// Unknown record type - raw bytes
    Unknown(Vec<u8>),
}

/// RDATA seen as plain values: addresses and byte strings as byte
/// sequences, names as their labels, text as its UTF-8 bytes.
pub enum RDataModel {
    A(Seq<u8>),
    AAAA(Seq<u8>),
    CNAME(Labels),
    NS(Labels),
    MX { preference: u16, exchange: Labels },
    PTR(Labels),
    SOA {
        mname: Labels,
        rname: Labels,
        serial: u32,
        refresh: u32,
        retry: u32,
        expire: u32,
        minimum: u32,
    },
    TXT(Seq<Seq<u8>>),
    SRV { priority: u16, weight: u16, port: u16, target: Labels },
    OPT {
        udp_payload_size: u16,
        extended_rcode: u8,
        version: u8,
        flags: u16,
        options: Seq<(u16, Seq<u8>)>,
    },
    DS { key_tag: u16, algorithm: u8, digest_type: u8, digest: Seq<u8> },
    RRSIG {
        type_covered: u16,
        algorithm: u8,
        labels: u8,
        original_ttl: u32,
        signature_expiration: u32,
        signature_inception: u32,
        key_tag: u16,
        signer_name: Labels,
        signature: Seq<u8>,
    },
    NSEC { next_domain_name: Labels, type_bit_maps: Seq<u8> },
    DNSKEY { flags: u16, protocol: u8, algorithm: u8, public_key: Seq<u8> },
    NSEC3 {
        hash_algorithm: u8,
        flags: u8,
        iterations: u16,
        salt: Seq<u8>,
        next_hashed_owner_name: Seq<u8>,
        type_bit_maps: Seq<u8>,
    },
    NSEC3PARAM { hash_algorithm: u8, flags: u8, iterations: u16, salt: Seq<u8> },
    CAA { flags: u8, tag: Seq<u8>, value: Seq<u8> },
    Unknown(Seq<u8>),
}

/// A resource record seen as plain values.
pub struct RecordModel {
    pub name: Labels,
    pub record_type: RecordType,
    pub class: Class,
    pub ttl: u32,
    pub data: RDataModel,
}

/// The EDNS options seen as plain values.
pub open spec fn options_model(o: Seq<(u16, Vec<u8>)>) -> Seq<(u16, Seq<u8>)> {
    o.map_values(|e: (u16, Vec<u8>)| (e.0, e.1@))
}

/// Strings seen through their UTF-8 bytes.
pub open spec fn strings_model(v: Seq<String>) -> Seq<Seq<u8>> {
    v.map_values(|s: String| text_bytes(s))
}

impl View for RData {
    type V = RDataModel;

    open spec fn view(&self) -> RDataModel {
        match self {
            RData::A(a) => RDataModel::A(a@),
            RData::AAAA(a) => RDataModel::AAAA(a@),
            RData::CNAME(n) => RDataModel::CNAME(n@),
            RData::NS(n) => RDataModel::NS(n@),
            RData::MX { preference, exchange } => RDataModel::MX {
                preference: *preference,
                exchange: exchange@,
            },
            RData::PTR(n) => RDataModel::PTR(n@),
            RData::SOA { mname, rname, serial, refresh, retry, expire, minimum } => RDataModel::SOA {
                mname: mname@,
                rname: rname@,
                serial: *serial,
                refresh: *refresh,
                retry: *retry,
                expire: *expire,
                minimum: *minimum,
            },
            RData::TXT(v) => RDataModel::TXT(strings_model(v@)),
            RData::SRV { priority, weight, port, target } => RDataModel::SRV {
                priority: *priority,
                weight: *weight,
                port: *port,
                target: target@,
            },
            RData::OPT { udp_payload_size, extended_rcode, version, flags, options } =>
                RDataModel::OPT {
                udp_payload_size: *udp_payload_size,
                extended_rcode: *extended_rcode,
                version: *version,
                flags: *flags,
                options: options_model(options@),
            },
            RData::DS { key_tag, algorithm, digest_type, digest } => RDataModel::DS {
                key_tag: *key_tag,
                algorithm: *algorithm,
                digest_type: *digest_type,
                digest: digest@,
            },
            RData::RRSIG {
                type_covered,
                algorithm,
                labels,
                original_ttl,
                signature_expiration,
                signature_inception,
                key_tag,
                signer_name,
                signature,
            } => RDataModel::RRSIG {
                type_covered: *type_covered,
                algorithm: *algorithm,
                labels: *labels,
                original_ttl: *original_ttl,
                signature_expiration: *signature_expiration,
                signature_inception: *signature_inception,
                key_tag: *key_tag,
                signer_name: signer_name@,
                signature: signature@,
            },
            RData::NSEC { next_domain_name, type_bit_maps } => RDataModel::NSEC {
                next_domain_name: next_domain_name@,
                type_bit_maps: type_bit_maps@,
            },
            RData::DNSKEY { flags, protocol, algorithm, public_key } => RDataModel::DNSKEY {
                flags: *flags,
                protocol: *protocol,
                algorithm: *algorithm,
                public_key: public_key@,
            },
            RData::NSEC3 {
                hash_algorithm,
                flags,
                iterations,
                salt,
                next_hashed_owner_name,
                type_bit_maps,
            } => RDataModel::NSEC3 {
                hash_algorithm: *hash_algorithm,
                flags: *flags,
                iterations: *iterations,
                salt: salt@,
                next_hashed_owner_name: next_hashed_owner_name@,
                type_bit_maps: type_bit_maps@,
            },
            RData::NSEC3PARAM { hash_algorithm, flags, iterations, salt } =>
                RDataModel::NSEC3PARAM {
                hash_algorithm: *hash_algorithm,
                flags: *flags,
                iterations: *iterations,
                salt: salt@,
            },
            RData::CAA { flags, tag, value } => RDataModel::CAA {
                flags: *flags,
                tag: text_bytes(*tag),
                value: value@,
            },
            RData::Unknown(d) => RDataModel::Unknown(d@),
        }
    }
}

impl View for ResourceRecord {
    type V = RecordModel;

    open spec fn view(&self) -> RecordModel {
        RecordModel {
            name: self.name@,
            record_type: self.record_type,
            class: self.class,
            ttl: self.ttl,
            data: self.data@,
        }
    }
}

/// The EDNS extended RCODE carried in the top byte of an OPT record's TTL.
pub open spec fn ttl_extended_rcode(ttl: u32) -> u8 {
    ((ttl >> 24u32) & 0xFFu32) as u8
}

/// The EDNS version carried in the second byte of an OPT record's TTL.
pub open spec fn ttl_version(ttl: u32) -> u8 {
    ((ttl >> 16u32) & 0xFFu32) as u8
}

/// The EDNS flags carried in the low half of an OPT record's TTL.
pub open spec fn ttl_flags(ttl: u32) -> u16 {
    (ttl & 0xFFFFu32) as u16
}

/// The TTL field of an OPT record holding these EDNS values.
pub open spec fn opt_ttl(extended_rcode: u8, version: u8, flags: u16) -> u32 {
    ((extended_rcode as u32) << 24u32) | ((version as u32) << 16u32) | (flags as u32)
}

/// Decoding a name inside RDATA, as the model of a name and where it ends.
pub open spec fn rname_at(buf: Seq<u8>, p: int) -> Result<(Labels, usize)> {
    spec_parse_name(buf, p, buf)
}

/// Decoding the RDATA of type `t` that starts at `s` and is said to take
/// `rdlen` bytes: the data, and where the decoding stopped.
pub open spec fn spec_parse_rdata(
    buf: Seq<u8>,
    t: RecordType,
    class: Class,
    ttl: u32,
    s: int,
    rdlen: int,
) -> Result<(RDataModel, int)> {
    let e = s + rdlen;
    match t {
        RecordType::A => if rdlen != 4 {
            Err(Error::InvalidRDataLength { expected: 4, actual: rdlen as usize })
        } else {
            Ok((RDataModel::A(buf.subrange(s, s + 4)), s + 4))
        },
        RecordType::AAAA => if rdlen != 16 {
            Err(Error::InvalidRDataLength { expected: 16, actual: rdlen as usize })
        } else {
            Ok((RDataModel::AAAA(buf.subrange(s, s + 16)), s + 16))
        },
        RecordType::CNAME => match rname_at(buf, s) {
            Ok((n, k)) => Ok((RDataModel::CNAME(n), s + k)),
            Err(x) => Err(x),
        },
        RecordType::NS => match rname_at(buf, s) {
            Ok((n, k)) => Ok((RDataModel::NS(n), s + k)),
            Err(x) => Err(x),
        },
        RecordType::PTR => match rname_at(buf, s) {
            Ok((n, k)) => Ok((RDataModel::PTR(n), s + k)),
            Err(x) => Err(x),
        },
        RecordType::MX => if rdlen < 3 {
            Err(Error::InvalidFormat)
        } else {
            match rname_at(buf, s + 2) {
                Ok((n, k)) => Ok(
                    (RDataModel::MX { preference: u16_at(buf, s), exchange: n }, s + 2 + k),
                ),
                Err(x) => Err(x),
            }
        },
        RecordType::SOA => match rname_at(buf, s) {
            Err(x) => Err(x),
            Ok((m, k1)) => match rname_at(buf, s + k1) {
                Err(x) => Err(x),
                Ok((r, k2)) => {
                    let q = s + k1 + k2;
                    if q + 20 > e {
                        Err(Error::Underrun)
                    } else {
                        Ok(
                            (
                                RDataModel::SOA {
                                    mname: m,
                                    rname: r,
                                    serial: u32_at(buf, q),
                                    refresh: u32_at(buf, q + 4),
                                    retry: u32_at(buf, q + 8),
                                    expire: u32_at(buf, q + 12),
                                    minimum: u32_at(buf, q + 16),
                                },
                                q + 20,
                            ),
                        )
                    }
                },
            },
        },
        RecordType::TXT => match txt_strings(buf, s, e) {
            Ok(v) => Ok((RDataModel::TXT(v), e)),
            Err(x) => Err(x),
        },
        RecordType::SRV => if rdlen < 7 {
            Err(Error::InvalidFormat)
        } else {
            match rname_at(buf, s + 6) {
                Ok((n, k)) => Ok(
                    (
                        RDataModel::SRV {
                            priority: u16_at(buf, s),
                            weight: u16_at(buf, s + 2),
                            port: u16_at(buf, s + 4),
                            target: n,
                        },
                        s + 6 + k,
                    ),
                ),
                Err(x) => Err(x),
            }
        },
        RecordType::OPT => match opt_options(buf, s, e) {
            Ok((o, q)) => Ok(
                (
                    RDataModel::OPT {
                        udp_payload_size: class_code(class),
                        extended_rcode: ttl_extended_rcode(ttl),
                        version: ttl_version(ttl),
                        flags: ttl_flags(ttl),
                        options: o,
                    },
                    q,
                ),
            ),
            Err(x) => Err(x),
        },
        RecordType::DS => if rdlen < 4 {
            Err(Error::InvalidRDataLength { expected: 4, actual: rdlen as usize })
        } else {
            Ok(
                (
                    RDataModel::DS {
                        key_tag: u16_at(buf, s),
                        algorithm: buf[s + 2],
                        digest_type: buf[s + 3],
                        digest: buf.subrange(s + 4, e),
                    },
                    e,
                ),
            )
        },
        RecordType::RRSIG => if rdlen < 19 {
            Err(Error::InvalidFormat)
        } else {
            match rname_at(buf, s + 18) {
                Err(x) => Err(x),
                Ok((n, k)) => {
                    let sp = s + 18 + k;
                    if sp > e {
                        Err(Error::Underrun)
                    } else {
                        Ok(
                            (
                                RDataModel::RRSIG {
                                    type_covered: u16_at(buf, s),
                                    algorithm: buf[s + 2],
                                    labels: buf[s + 3],
                                    original_ttl: u32_at(buf, s + 4),
                                    signature_expiration: u32_at(buf, s + 8),
                                    signature_inception: u32_at(buf, s + 12),
                                    key_tag: u16_at(buf, s + 16),
                                    signer_name: n,
                                    signature: buf.subrange(sp, e),
                                },
                                e,
                            ),
                        )
                    }
                },
            }
        },
        RecordType::NSEC => if rdlen < 1 {
            Err(Error::InvalidFormat)
        } else {
            match rname_at(buf, s) {
                Err(x) => Err(x),
                Ok((n, k)) => {
                    let tm = s + k;
                    if tm > e {
                        Err(Error::Underrun)
                    } else {
                        Ok(
                            (
                                RDataModel::NSEC {
                                    next_domain_name: n,
                                    type_bit_maps: buf.subrange(tm, e),
                                },
                                e,
                            ),
                        )
                    }
                },
            }
        },
        RecordType::DNSKEY => if rdlen < 4 {
            Err(Error::InvalidRDataLength { expected: 4, actual: rdlen as usize })
        } else {
            Ok(
                (
                    RDataModel::DNSKEY {
                        flags: u16_at(buf, s),
                        protocol: buf[s + 2],
                        algorithm: buf[s + 3],
                        public_key: buf.subrange(s + 4, e),
                    },
                    e,
                ),
            )
        },
        RecordType::NSEC3 => if rdlen < 5 {
            Err(Error::InvalidFormat)
        } else {
            let ss = s + 5;
            let se = ss + buf[s + 4];
            if se > e {
                Err(Error::InvalidInternalFieldLength)
            } else if se >= e {
                Err(Error::Underrun)
            } else {
                let hs = se + 1;
                let he = hs + buf[se];
                if he > e {
                    Err(Error::InvalidInternalFieldLength)
                } else {
                    Ok(
                        (
                            RDataModel::NSEC3 {
                                hash_algorithm: buf[s],
                                flags: buf[s + 1],
                                iterations: u16_at(buf, s + 2),
                                salt: buf.subrange(ss, se),
                                next_hashed_owner_name: buf.subrange(hs, he),
                                type_bit_maps: buf.subrange(he, e),
                            },
                            e,
                        ),
                    )
                }
            }
        },
        RecordType::NSEC3PARAM => if rdlen < 5 {
            Err(Error::InvalidFormat)
        } else {
            let ss = s + 5;
            let se = ss + buf[s + 4];
            if se > e {
                Err(Error::InvalidInternalFieldLength)
            } else {
                Ok(
                    (
                        RDataModel::NSEC3PARAM {
                            hash_algorithm: buf[s],
                            flags: buf[s + 1],
                            iterations: u16_at(buf, s + 2),
                            salt: buf.subrange(ss, se),
                        },
                        se,
                    ),
                )
            }
        },
        RecordType::CAA => if rdlen < 2 {
            Err(Error::InvalidFormat)
        } else {
            let ts = s + 2;
            let te = ts + buf[s + 1];
            if te > e {
                Err(Error::InvalidInternalFieldLength)
            } else if !valid_utf8(buf.subrange(ts, te)) {
                Err(Error::InvalidCaaTagEncoding)
            } else {
                Ok(
                    (
                        RDataModel::CAA {
                            flags: buf[s],
                            tag: buf.subrange(ts, te),
                            value: buf.subrange(te, e),
                        },
                        e,
                    ),
                )
            }
        },
        RecordType::ANY => Ok((RDataModel::Unknown(buf.subrange(s, e)), e)),
        RecordType::Unknown(_) => Ok((RDataModel::Unknown(buf.subrange(s, e)), e)),
    }
}

/// Decoding the resource record at `offset`: its owner name, the ten bytes of
/// type, class, TTL and RDLENGTH, and RDATA that must take exactly RDLENGTH
/// bytes.  Returns the record and the number of bytes it takes.
#[verifier::opaque]
pub open spec fn spec_parse_record(buf: Seq<u8>, offset: int) -> Result<(RecordModel, usize)> {
    if offset + 11 > buf.len() {
        Err(Error::Underrun)
    } else {
        match spec_parse_name(buf, offset, buf) {
            Err(x) => Err(x),
            Ok((n, ns)) => {
                let pos = offset + ns;
                if pos + 10 > buf.len() {
                    Err(Error::Underrun)
                } else {
                    let t = record_type_of(u16_at(buf, pos));
                    let c = class_of(u16_at(buf, pos + 2));
                    let ttl = u32_at(buf, pos + 4);
                    let rdlen = u16_at(buf, pos + 8) as int;
                    let s = pos + 10;
                    if s + rdlen > buf.len() {
                        Err(Error::Underrun)
                    } else {
                        match spec_parse_rdata(buf, t, c, ttl, s, rdlen) {
                            Err(x) => Err(x),
                            Ok((d, q)) => if q - s != rdlen {
                                Err(Error::InvalidFormat)
                            } else {
                                Ok(
                                    (
                                        RecordModel {
                                            name: n,
                                            record_type: t,
                                            class: c,
                                            ttl,
                                            data: d,
                                        },
                                        (q - offset) as usize,
                                    ),
                                )
                            },
                        }
                    }
                }
            },
        }
    }
}

/// The bytes of RDATA written at absolute position `start`, and the name
/// positions recorded while writing its names.
pub open spec fn spec_write_rdata(d: RDataModel, start: nat, p: Seq<(Labels, usize)>) -> (
    Seq<u8>,
    Seq<(Labels, usize)>,
) {
    match d {
        RDataModel::A(a) => (a, p),
        RDataModel::AAAA(a) => (a, p),
        RDataModel::CNAME(n) => spec_write_name(n, start, p),
        RDataModel::NS(n) => spec_write_name(n, start, p),
        RDataModel::PTR(n) => spec_write_name(n, start, p),
        RDataModel::MX { preference, exchange } => {
            let (nb, p2) = spec_write_name(exchange, start + 2, p);
            (be16(preference) + nb, p2)
        },
        RDataModel::SOA { mname, rname, serial, refresh, retry, expire, minimum } => {
            let (mb, p1) = spec_write_name(mname, start, p);
            let (rb, p2) = spec_write_name(rname, start + mb.len(), p1);
            (
                mb + rb + be32(serial) + be32(refresh) + be32(retry) + be32(expire) + be32(minimum),
                p2,
            )
        },
        RDataModel::TXT(v) => (txt_bytes(v), p),
        RDataModel::SRV { priority, weight, port, target } => {
            let (nb, p2) = spec_write_name(target, start + 6, p);
            (be16(priority) + be16(weight) + be16(port) + nb, p2)
        },
        RDataModel::OPT { options, .. } => (options_bytes(options), p),
        RDataModel::DS { key_tag, algorithm, digest_type, digest } => (
            be16(key_tag) + seq![algorithm, digest_type] + digest,
            p,
        ),
        RDataModel::RRSIG {
            type_covered,
            algorithm,
            labels,
            original_ttl,
            signature_expiration,
            signature_inception,
            key_tag,
            signer_name,
            signature,
        } => {
            let (nb, p2) = spec_write_name(signer_name, start + 18, p);
            (
                be16(type_covered) + seq![algorithm, labels] + be32(original_ttl) + be32(
                    signature_expiration,
                ) + be32(signature_inception) + be16(key_tag) + nb + signature,
                p2,
            )
        },
        RDataModel::NSEC { next_domain_name, type_bit_maps } => {
            let (nb, p2) = spec_write_name(next_domain_name, start, p);
            (nb + type_bit_maps, p2)
        },
        RDataModel::DNSKEY { flags, protocol, algorithm, public_key } => (
            be16(flags) + seq![protocol, algorithm] + public_key,
            p,
        ),
        RDataModel::NSEC3 {
            hash_algorithm,
            flags,
            iterations,
            salt,
            next_hashed_owner_name,
            type_bit_maps,
        } => (
            seq![hash_algorithm, flags] + be16(iterations) + seq![salt.len() as u8] + salt + seq![
                next_hashed_owner_name.len() as u8,
            ] + next_hashed_owner_name + type_bit_maps,
            p,
        ),
        RDataModel::NSEC3PARAM { hash_algorithm, flags, iterations, salt } => (
            seq![hash_algorithm, flags] + be16(iterations) + seq![salt.len() as u8] + salt,
            p,
        ),
        RDataModel::CAA { flags, tag, value } => (
            seq![flags, tag.len() as u8] + tag + value,
            p,
        ),
        RDataModel::Unknown(data) => (data, p),
    }
}

/// The bytes of a resource record written at absolute position `start`: owner
/// name, type, class, TTL, the RDATA length cut to 16 bits, and RDATA; and
/// the name positions recorded meanwhile.
#[verifier::opaque]
pub open spec fn spec_write_record(r: RecordModel, start: nat, p: Seq<(Labels, usize)>) -> (
    Seq<u8>,
    Seq<(Labels, usize)>,
) {
    let (nb, p1) = spec_write_name(r.name, start, p);
    let (rd, p2) = spec_write_rdata(r.data, start + nb.len() + 10, p1);
    (
        nb + be16(record_type_code(r.record_type)) + be16(class_code(r.class)) + be32(r.ttl) + be16(
            rd.len() as u16,
        ) + rd,
        p2,
    )
}

/// A decoding result seen through the record's model.
pub open spec fn record_result_view(r: Result<(ResourceRecord, usize)>) -> Result<
    (RecordModel, usize),
> {
    match r {
        Ok((rr, c)) => Ok((rr@, c)),
        Err(e) => Err(e),
    }
}

/// A decoding result seen through the RDATA's model.
pub open spec fn rdata_result_view(r: Result<(RData, usize)>) -> Result<(RDataModel, int)> {
    match r {
        Ok((d, q)) => Ok((d@, q as int)),
        Err(e) => Err(e),
    }
}

/// How the rest of a list decodes, with the entries decoded so far in front.
pub open spec fn prepend_txt(acc: Seq<Seq<u8>>, r: Result<Seq<Seq<u8>>>) -> Result<Seq<Seq<u8>>> {
    match r {
        Ok(v) => Ok(acc + v),
        Err(x) => Err(x),
    }
}

/// How the rest of the options decode, with those decoded so far in front.
pub open spec fn prepend_options(
    acc: Seq<(u16, Seq<u8>)>,
    r: Result<(Seq<(u16, Seq<u8>)>, int)>,
) -> Result<(Seq<(u16, Seq<u8>)>, int)> {
    match r {
        Ok((v, q)) => Ok((acc + v, q)),
        Err(x) => Err(x),
    }
}

/// The text of one character string.
fn txt_string(chunk: &[u8]) -> (s: String)
    ensures
        text_bytes(s) == txt_text(chunk@),
{
    match str_from_utf8(chunk) {
        Some(st) => st.to_owned(),
        None => {
            let prefix: [u8; 2] = [0x30u8, 0x78u8];
            let mut t = string_from_ascii(prefix.as_slice());
            let hex = bytes_to_hex_string(chunk);
            proof {
                crate::text::lemma_text_concat(t@, hex@);
                assert(prefix@ =~= seq![0x30u8, 0x78u8]);
            }
            t.append(hex.as_str());
            t
        },
    }
}

fn parse_txt(buffer: &[u8], s: usize, e: usize) -> (res: Result<Vec<String>>)
    requires
        s <= e <= buffer@.len(),
    ensures
        match res {
            Ok(v) => txt_strings(buffer@, s as int, e as int) == Ok::<Seq<Seq<u8>>, Error>(
                strings_model(v@),
            ),
            Err(x) => txt_strings(buffer@, s as int, e as int) == Err::<Seq<Seq<u8>>, Error>(x),
        },
{
    let mut strings: Vec<String> = Vec::new();
    let mut p: usize = s;
    while p < e
        invariant
            s <= p <= e <= buffer@.len(),
            txt_strings(buffer@, s as int, e as int) == prepend_txt(
                strings_model(strings@),
                txt_strings(buffer@, p as int, e as int),
            ),
        decreases e - p,
    {
        let len = buffer[p] as usize;
        if len > e - p - 1 {
            return Err(Error::InvalidCharacterStringLength);
        }
        let chunk = slice_subrange(buffer, p + 1, p + 1 + len);
        let t = txt_string(chunk);
        let ghost old_strings = strings@;
        strings.push(t);
        proof {
            let a = strings_model(old_strings);
            assert(strings_model(strings@) =~= a.push(text_bytes(t)));
            match txt_strings(buffer@, (p + 1 + len) as int, e as int) {
                Ok(v) => {
                    assert(a + (seq![text_bytes(t)] + v) =~= a.push(text_bytes(t)) + v);
                },
                Err(x) => {},
            }
        }
        p = p + 1 + len;
    }
    assert(strings_model(strings@) + Seq::<Seq<u8>>::empty() =~= strings_model(strings@));
    Ok(strings)
}

fn parse_options(buffer: &[u8], s: usize, e: usize) -> (res: Result<(Vec<(u16, Vec<u8>)>, usize)>)
    requires
        s <= e <= buffer@.len(),
    ensures
        match res {
            Ok((v, q)) => opt_options(buffer@, s as int, e as int) == Ok::<
                (Seq<(u16, Seq<u8>)>, int),
                Error,
            >((options_model(v@), q as int)),
            Err(x) => opt_options(buffer@, s as int, e as int) == Err::<
                (Seq<(u16, Seq<u8>)>, int),
                Error,
            >(x),
        },
        res matches Ok((_, q)) ==> s <= q <= e,
{
    let mut options: Vec<(u16, Vec<u8>)> = Vec::new();
    let mut p: usize = s;
    while e - p >= 4
        invariant
            s <= p <= e <= buffer@.len(),
            opt_options(buffer@, s as int, e as int) == prepend_options(
                options_model(options@),
                opt_options(buffer@, p as int, e as int),
            ),
        decreases e - p,
    {
        let code = read_u16(buffer, p);
        let olen = read_u16(buffer, p + 2) as usize;
        if olen > e - p - 4 {
            return Err(Error::Underrun);
        }
        let data = copy_range(buffer, p + 4, p + 4 + olen);
        let ghost old_options = options@;
        options.push((code, data));
        proof {
            let a = options_model(old_options);
            let entry = (code, data@);
            assert(options_model(options@) =~= a.push(entry));
            match opt_options(buffer@, (p + 4 + olen) as int, e as int) {
                Ok((v, q)) => {
                    assert(a + (seq![entry] + v) =~= a.push(entry) + v);
                },
                Err(x) => {},
            }
        }
        p = p + 4 + olen;
    }
    assert(options_model(options@) + Seq::<(u16, Seq<u8>)>::empty() =~= options_model(options@));
    Ok((options, p))
}

/// Decodes the RDATA of type `record_type` at `s`, said to take `rdlength`
/// bytes; returns it and the position where decoding stopped.
fn parse_rdata(
    buffer: &[u8],
    record_type: RecordType,
    class: Class,
    ttl: u32,
    s: usize,
    rdlength: usize,
) -> (res: Result<(RData, usize)>)
    requires
        s + rdlength <= buffer@.len(),
    ensures
        rdata_result_view(res) == spec_parse_rdata(
            buffer@,
            record_type,
            class,
            ttl,
            s as int,
            rdlength as int,
        ),
        res matches Ok((_, q)) ==> s <= q <= buffer@.len(),
{
    match record_type {
        RecordType::A => parse_rdata_a(buffer, class, ttl, s, rdlength),
        RecordType::AAAA => parse_rdata_aaaa(buffer, class, ttl, s, rdlength),
        RecordType::CNAME => parse_rdata_cname(buffer, class, ttl, s, rdlength),
        RecordType::NS => parse_rdata_ns(buffer, class, ttl, s, rdlength),
        RecordType::PTR => parse_rdata_ptr(buffer, class, ttl, s, rdlength),
        RecordType::MX => parse_rdata_mx(buffer, class, ttl, s, rdlength),
        RecordType::SOA => parse_rdata_soa(buffer, class, ttl, s, rdlength),
        RecordType::TXT => parse_rdata_txt(buffer, class, ttl, s, rdlength),
        RecordType::SRV => parse_rdata_srv(buffer, class, ttl, s, rdlength),
        RecordType::OPT => parse_rdata_opt(buffer, class, ttl, s, rdlength),
        RecordType::DS => parse_rdata_ds(buffer, class, ttl, s, rdlength),
        RecordType::RRSIG => parse_rdata_rrsig(buffer, class, ttl, s, rdlength),
        RecordType::NSEC => parse_rdata_nsec(buffer, class, ttl, s, rdlength),
        RecordType::DNSKEY => parse_rdata_dnskey(buffer, class, ttl, s, rdlength),
        RecordType::NSEC3 => parse_rdata_nsec3(buffer, class, ttl, s, rdlength),
        RecordType::NSEC3PARAM => parse_rdata_nsec3param(buffer, class, ttl, s, rdlength),
        RecordType::CAA => parse_rdata_caa(buffer, class, ttl, s, rdlength),
        RecordType::ANY => parse_rdata_any(buffer, class, ttl, s, rdlength),
        RecordType::Unknown(v) => parse_rdata_unknown(buffer, class, ttl, s, rdlength, v),
    }
}

fn parse_rdata_a(buffer: &[u8], class: Class, ttl: u32, s: usize, rdlength: usize) -> (res: Result<(RData, usize)>)
    requires
        s + rdlength <= buffer@.len(),
    ensures
        rdata_result_view(res) == spec_parse_rdata(
            buffer@,
            RecordType::A,
            class,
            ttl,
            s as int,
            rdlength as int,
        ),
        res matches Ok((_, q)) ==> s <= q <= buffer@.len(),
{
    let blen = buffer.len();
    let e = s + rdlength;
    if rdlength != 4 {
        return Err(Error::InvalidRDataLength { expected: 4, actual: rdlength });
    }
    let ip: [u8; 4] = [buffer[s], buffer[s + 1], buffer[s + 2], buffer[s + 3]];
    assert(ip@ =~= buffer@.subrange(s as int, s + 4));
    Ok((RData::A(ip), s + 4))
}

fn parse_rdata_aaaa(buffer: &[u8], class: Class, ttl: u32, s: usize, rdlength: usize) -> (res: Result<(RData, usize)>)
    requires
        s + rdlength <= buffer@.len(),
    ensures
        rdata_result_view(res) == spec_parse_rdata(
            buffer@,
            RecordType::AAAA,
            class,
            ttl,
            s as int,
            rdlength as int,
        ),
        res matches Ok((_, q)) ==> s <= q <= buffer@.len(),
{
    let blen = buffer.len();
    let e = s + rdlength;
    if rdlength != 16 {
        return Err(Error::InvalidRDataLength { expected: 16, actual: rdlength });
    }
    let mut ip: [u8; 16] = [0u8; 16];
    let mut i: usize = 0;
    while i < 16
        invariant
            i <= 16,
            blen == buffer@.len(),
            s + 16 <= buffer@.len(),
            forall|k: int| 0 <= k < i ==> ip@[k] == buffer@[s + k],
        decreases 16 - i,
    {
        ip.set(i, buffer[s + i]);
        i = i + 1;
    }
    assert(ip@ =~= buffer@.subrange(s as int, s + 16));
    Ok((RData::AAAA(ip), s + 16))
}

fn parse_rdata_cname(buffer: &[u8], class: Class, ttl: u32, s: usize, rdlength: usize) -> (res: Result<(RData, usize)>)
    requires
        s + rdlength <= buffer@.len(),
    ensures
        rdata_result_view(res) == spec_parse_rdata(
            buffer@,
            RecordType::CNAME,
            class,
            ttl,
            s as int,
            rdlength as int,
        ),
        res matches Ok((_, q)) ==> s <= q <= buffer@.len(),
{
    let blen = buffer.len();
    let e = s + rdlength;
    match DnsName::parse(buffer, s, buffer) {
        Ok((n, k)) => Ok((RData::CNAME(n), s + k)),
        Err(x) => Err(x),
    }
}

fn parse_rdata_ns(buffer: &[u8], class: Class, ttl: u32, s: usize, rdlength: usize) -> (res: Result<(RData, usize)>)
    requires
        s + rdlength <= buffer@.len(),
    ensures
        rdata_result_view(res) == spec_parse_rdata(
            buffer@,
            RecordType::NS,
            class,
            ttl,
            s as int,
            rdlength as int,
        ),
        res matches Ok((_, q)) ==> s <= q <= buffer@.len(),
{
    let blen = buffer.len();
    let e = s + rdlength;
    match DnsName::parse(buffer, s, buffer) {
        Ok((n, k)) => Ok((RData::NS(n), s + k)),
        Err(x) => Err(x),
    }
}

fn parse_rdata_ptr(buffer: &[u8], class: Class, ttl: u32, s: usize, rdlength: usize) -> (res: Result<(RData, usize)>)
    requires
        s + rdlength <= buffer@.len(),
    ensures
        rdata_result_view(res) == spec_parse_rdata(
            buffer@,
            RecordType::PTR,
            class,
            ttl,
            s as int,
            rdlength as int,
        ),
        res matches Ok((_, q)) ==> s <= q <= buffer@.len(),
{
    let blen = buffer.len();
    let e = s + rdlength;
    match DnsName::parse(buffer, s, buffer) {
        Ok((n, k)) => Ok((RData::PTR(n), s + k)),
        Err(x) => Err(x),
    }
}

fn parse_rdata_mx(buffer: &[u8], class: Class, ttl: u32, s: usize, rdlength: usize) -> (res: Result<(RData, usize)>)
    requires
        s + rdlength <= buffer@.len(),
    ensures
        rdata_result_view(res) == spec_parse_rdata(
            buffer@,
            RecordType::MX,
            class,
            ttl,
            s as int,
            rdlength as int,
        ),
        res matches Ok((_, q)) ==> s <= q <= buffer@.len(),
{
    let blen = buffer.len();
    let e = s + rdlength;
    if rdlength < 3 {
        return Err(Error::InvalidFormat);
    }
    let preference = read_u16(buffer, s);
    match DnsName::parse(buffer, s + 2, buffer) {
        Ok((n, k)) => Ok((RData::MX { preference, exchange: n }, s + 2 + k)),
        Err(x) => Err(x),
    }
}

fn parse_rdata_soa(buffer: &[u8], class: Class, ttl: u32, s: usize, rdlength: usize) -> (res: Result<(RData, usize)>)
    requires
        s + rdlength <= buffer@.len(),
    ensures
        rdata_result_view(res) == spec_parse_rdata(
            buffer@,
            RecordType::SOA,
            class,
            ttl,
            s as int,
            rdlength as int,
        ),
        res matches Ok((_, q)) ==> s <= q <= buffer@.len(),
{
    let blen = buffer.len();
    let e = s + rdlength;
    let (mname, k1) = match DnsName::parse(buffer, s, buffer) {
        Ok(r) => r,
        Err(x) => return Err(x),
    };
    let (rname, k2) = match DnsName::parse(buffer, s + k1, buffer) {
        Ok(r) => r,
        Err(x) => return Err(x),
    };
    let q = s + k1 + k2;
    if q > e || 20 > e - q {
        return Err(Error::Underrun);
    }
    let serial = read_u32(buffer, q);
    let refresh = read_u32(buffer, q + 4);
    let retry = read_u32(buffer, q + 8);
    let expire = read_u32(buffer, q + 12);
    let minimum = read_u32(buffer, q + 16);
    Ok((RData::SOA { mname, rname, serial, refresh, retry, expire, minimum }, q + 20))
}

fn parse_rdata_txt(buffer: &[u8], class: Class, ttl: u32, s: usize, rdlength: usize) -> (res: Result<(RData, usize)>)
    requires
        s + rdlength <= buffer@.len(),
    ensures
        rdata_result_view(res) == spec_parse_rdata(
            buffer@,
            RecordType::TXT,
            class,
            ttl,
            s as int,
            rdlength as int,
        ),
        res matches Ok((_, q)) ==> s <= q <= buffer@.len(),
{
    let blen = buffer.len();
    let e = s + rdlength;
    match parse_txt(buffer, s, e) {
        Ok(v) => Ok((RData::TXT(v), e)),
        Err(x) => Err(x),
    }
}

fn parse_rdata_srv(buffer: &[u8], class: Class, ttl: u32, s: usize, rdlength: usize) -> (res: Result<(RData, usize)>)
    requires
        s + rdlength <= buffer@.len(),
    ensures
        rdata_result_view(res) == spec_parse_rdata(
            buffer@,
            RecordType::SRV,
            class,
            ttl,
            s as int,
            rdlength as int,
        ),
        res matches Ok((_, q)) ==> s <= q <= buffer@.len(),
{
    let blen = buffer.len();
    let e = s + rdlength;
    if rdlength < 7 {
        return Err(Error::InvalidFormat);
    }
    let priority = read_u16(buffer, s);
    let weight = read_u16(buffer, s + 2);
    let port = read_u16(buffer, s + 4);
    match DnsName::parse(buffer, s + 6, buffer) {
        Ok((n, k)) => Ok((RData::SRV { priority, weight, port, target: n }, s + 6 + k)),
        Err(x) => Err(x),
    }
}

fn parse_rdata_opt(buffer: &[u8], class: Class, ttl: u32, s: usize, rdlength: usize) -> (res: Result<(RData, usize)>)
    requires
        s + rdlength <= buffer@.len(),
    ensures
        rdata_result_view(res) == spec_parse_rdata(
            buffer@,
            RecordType::OPT,
            class,
            ttl,
            s as int,
            rdlength as int,
        ),
        res matches Ok((_, q)) ==> s <= q <= buffer@.len(),
{
    let blen = buffer.len();
    let e = s + rdlength;
    match parse_options(buffer, s, e) {
        Ok((options, q)) => {
            let version = #[verifier::truncate] (((ttl >> 16u32) & 0xFFu32) as u8);
            let extended_rcode = #[verifier::truncate] (((ttl >> 24u32) & 0xFFu32) as u8);
            let flags = #[verifier::truncate] ((ttl & 0xFFFFu32) as u16);
            Ok(
                (
                    RData::OPT {
                        udp_payload_size: class.to_u16(),
                        extended_rcode,
                        version,
                        flags,
                        options,
                    },
                    q,
                ),
            )
        },
        Err(x) => Err(x),
    }
}

fn parse_rdata_ds(buffer: &[u8], class: Class, ttl: u32, s: usize, rdlength: usize) -> (res: Result<(RData, usize)>)
    requires
        s + rdlength <= buffer@.len(),
    ensures
        rdata_result_view(res) == spec_parse_rdata(
            buffer@,
            RecordType::DS,
            class,
            ttl,
            s as int,
            rdlength as int,
        ),
        res matches Ok((_, q)) ==> s <= q <= buffer@.len(),
{
    let blen = buffer.len();
    let e = s + rdlength;
    if rdlength < 4 {
        return Err(Error::InvalidRDataLength { expected: 4, actual: rdlength });
    }
    let key_tag = read_u16(buffer, s);
    let algorithm = buffer[s + 2];
    let digest_type = buffer[s + 3];
    let digest = copy_range(buffer, s + 4, e);
    Ok((RData::DS { key_tag, algorithm, digest_type, digest }, e))
}

fn parse_rdata_rrsig(buffer: &[u8], class: Class, ttl: u32, s: usize, rdlength: usize) -> (res: Result<(RData, usize)>)
    requires
        s + rdlength <= buffer@.len(),
    ensures
        rdata_result_view(res) == spec_parse_rdata(
            buffer@,
            RecordType::RRSIG,
            class,
            ttl,
            s as int,
            rdlength as int,
        ),
        res matches Ok((_, q)) ==> s <= q <= buffer@.len(),
{
    let blen = buffer.len();
    let e = s + rdlength;
    if rdlength < 19 {
        return Err(Error::InvalidFormat);
    }
    let type_covered = read_u16(buffer, s);
    let algorithm = buffer[s + 2];
    let labels = buffer[s + 3];
    let original_ttl = read_u32(buffer, s + 4);
    let signature_expiration = read_u32(buffer, s + 8);
    let signature_inception = read_u32(buffer, s + 12);
    let key_tag = read_u16(buffer, s + 16);
    let (signer_name, k) = match DnsName::parse(buffer, s + 18, buffer) {
        Ok(r) => r,
        Err(x) => return Err(x),
    };
    let sp = s + 18 + k;
    if sp > e {
        return Err(Error::Underrun);
    }
    let signature = copy_range(buffer, sp, e);
    Ok(
        (
            RData::RRSIG {
                type_covered,
                algorithm,
                labels,
                original_ttl,
                signature_expiration,
                signature_inception,
                key_tag,
                signer_name,
                signature,
            },
            e,
        ),
    )
}

fn parse_rdata_nsec(buffer: &[u8], class: Class, ttl: u32, s: usize, rdlength: usize) -> (res: Result<(RData, usize)>)
    requires
        s + rdlength <= buffer@.len(),
    ensures
        rdata_result_view(res) == spec_parse_rdata(
            buffer@,
            RecordType::NSEC,
            class,
            ttl,
            s as int,
            rdlength as int,
        ),
        res matches Ok((_, q)) ==> s <= q <= buffer@.len(),
{
    let blen = buffer.len();
    let e = s + rdlength;
    if rdlength < 1 {
        return Err(Error::InvalidFormat);
    }
    let (next_domain_name, k) = match DnsName::parse(buffer, s, buffer) {
        Ok(r) => r,
        Err(x) => return Err(x),
    };
    let tm = s + k;
    if tm > e {
        return Err(Error::Underrun);
    }
    let type_bit_maps = copy_range(buffer, tm, e);
    Ok((RData::NSEC { next_domain_name, type_bit_maps }, e))
}

fn parse_rdata_dnskey(buffer: &[u8], class: Class, ttl: u32, s: usize, rdlength: usize) -> (res: Result<(RData, usize)>)
    requires
        s + rdlength <= buffer@.len(),
    ensures
        rdata_result_view(res) == spec_parse_rdata(
            buffer@,
            RecordType::DNSKEY,
            class,
            ttl,
            s as int,
            rdlength as int,
        ),
        res matches Ok((_, q)) ==> s <= q <= buffer@.len(),
{
    let blen = buffer.len();
    let e = s + rdlength;
    if rdlength < 4 {
        return Err(Error::InvalidRDataLength { expected: 4, actual: rdlength });
    }
    let flags = read_u16(buffer, s);
    let protocol = buffer[s + 2];
    let algorithm = buffer[s + 3];
    let public_key = copy_range(buffer, s + 4, e);
    Ok((RData::DNSKEY { flags, protocol, algorithm, public_key }, e))
}

fn parse_rdata_nsec3(buffer: &[u8], class: Class, ttl: u32, s: usize, rdlength: usize) -> (res: Result<(RData, usize)>)
    requires
        s + rdlength <= buffer@.len(),
    ensures
        rdata_result_view(res) == spec_parse_rdata(
            buffer@,
            RecordType::NSEC3,
            class,
            ttl,
            s as int,
            rdlength as int,
        ),
        res matches Ok((_, q)) ==> s <= q <= buffer@.len(),
{
    let blen = buffer.len();
    let e = s + rdlength;
    if rdlength < 5 {
        return Err(Error::InvalidFormat);
    }
    let hash_algorithm = buffer[s];
    let flags = buffer[s + 1];
    let iterations = read_u16(buffer, s + 2);
    let salt_length = buffer[s + 4] as usize;
    let ss = s + 5;
    if salt_length > e - ss {
        return Err(Error::InvalidInternalFieldLength);
    }
    let salt = copy_range(buffer, ss, ss + salt_length);
    let se = ss + salt_length;
    if se >= e {
        return Err(Error::Underrun);
    }
    let hash_length = buffer[se] as usize;
    let hs = se + 1;
    if hash_length > e - hs {
        return Err(Error::InvalidInternalFieldLength);
    }
    let next_hashed_owner_name = copy_range(buffer, hs, hs + hash_length);
    let type_bit_maps = copy_range(buffer, hs + hash_length, e);
    Ok(
        (
            RData::NSEC3 {
                hash_algorithm,
                flags,
                iterations,
                salt,
                next_hashed_owner_name,
                type_bit_maps,
            },
            e,
        ),
    )
}

fn parse_rdata_nsec3param(buffer: &[u8], class: Class, ttl: u32, s: usize, rdlength: usize) -> (res: Result<(RData, usize)>)
    requires
        s + rdlength <= buffer@.len(),
    ensures
        rdata_result_view(res) == spec_parse_rdata(
            buffer@,
            RecordType::NSEC3PARAM,
            class,
            ttl,
            s as int,
            rdlength as int,
        ),
        res matches Ok((_, q)) ==> s <= q <= buffer@.len(),
{
    let blen = buffer.len();
    let e = s + rdlength;
    if rdlength < 5 {
        return Err(Error::InvalidFormat);
    }
    let hash_algorithm = buffer[s];
    let flags = buffer[s + 1];
    let iterations = read_u16(buffer, s + 2);
    let salt_length = buffer[s + 4] as usize;
    let ss = s + 5;
    if salt_length > e - ss {
        return Err(Error::InvalidInternalFieldLength);
    }
    let salt = copy_range(buffer, ss, ss + salt_length);
    Ok((RData::NSEC3PARAM { hash_algorithm, flags, iterations, salt }, ss + salt_length))
}

fn parse_rdata_caa(buffer: &[u8], class: Class, ttl: u32, s: usize, rdlength: usize) -> (res: Result<(RData, usize)>)
    requires
        s + rdlength <= buffer@.len(),
    ensures
        rdata_result_view(res) == spec_parse_rdata(
            buffer@,
            RecordType::CAA,
            class,
            ttl,
            s as int,
            rdlength as int,
        ),
        res matches Ok((_, q)) ==> s <= q <= buffer@.len(),
{
    let blen = buffer.len();
    let e = s + rdlength;
    if rdlength < 2 {
        return Err(Error::InvalidFormat);
    }
    let flags = buffer[s];
    let tag_length = buffer[s + 1] as usize;
    let ts = s + 2;
    if tag_length > e - ts {
        return Err(Error::InvalidInternalFieldLength);
    }
    let tag_bytes = slice_subrange(buffer, ts, ts + tag_length);
    let tag = match str_from_utf8(tag_bytes) {
        Some(t) => t.to_owned(),
        None => return Err(Error::InvalidCaaTagEncoding),
    };
    let value = copy_range(buffer, ts + tag_length, e);
    Ok((RData::CAA { flags, tag, value }, e))
}

fn parse_rdata_any(buffer: &[u8], class: Class, ttl: u32, s: usize, rdlength: usize) -> (res: Result<(RData, usize)>)
    requires
        s + rdlength <= buffer@.len(),
    ensures
        rdata_result_view(res) == spec_parse_rdata(
            buffer@,
            RecordType::ANY,
            class,
            ttl,
            s as int,
            rdlength as int,
        ),
        res matches Ok((_, q)) ==> s <= q <= buffer@.len(),
{
    let blen = buffer.len();
    let e = s + rdlength;
    let data = copy_range(buffer, s, e);
    Ok((RData::Unknown(data), e))
}

fn parse_rdata_unknown(buffer: &[u8], class: Class, ttl: u32, s: usize, rdlength: usize, v: u16) -> (res: Result<(RData, usize)>)
    requires
        s + rdlength <= buffer@.len(),
    ensures
        rdata_result_view(res) == spec_parse_rdata(
            buffer@,
            RecordType::Unknown(v),
            class,
            ttl,
            s as int,
            rdlength as int,
        ),
        res matches Ok((_, q)) ==> s <= q <= buffer@.len(),
{
    let blen = buffer.len();
    let e = s + rdlength;
    let data = copy_range(buffer, s, e);
    Ok((RData::Unknown(data), e))
}

impl ResourceRecord {
    pub fn new(name: DnsName, record_type: RecordType, class: Class, ttl: u32, data: RData) -> (r:
        Self)
        ensures
            r.name == name,
            r.record_type == record_type,
            r.class == class,
            r.ttl == ttl,
            r.data == data,
    {
        ResourceRecord { name, record_type, class, ttl, data }
    }

    /// Decodes the resource record at `offset`; returns it and the number of
    /// bytes it takes.
    pub fn parse(buffer: &[u8], offset: usize) -> (res: Result<(Self, usize)>)
        ensures
            record_result_view(res) == spec_parse_record(buffer@, offset as int),
            res matches Ok((_, c)) ==> offset + c <= buffer@.len(),
    {
        proof {
            reveal(spec_parse_record);
        }
        if buffer.len() < 11 || offset > buffer.len() - 11 {
            return Err(Error::Underrun);
        }
        let (name, name_size) = match DnsName::parse(buffer, offset, buffer) {
            Ok(r) => r,
            Err(x) => return Err(x),
        };
        let pos = offset + name_size;
        if 10 > buffer.len() - pos {
            return Err(Error::Underrun);
        }
        let record_type = RecordType::from_u16(read_u16(buffer, pos));
        let class = Class::from_u16(read_u16(buffer, pos + 2));
        let ttl = read_u32(buffer, pos + 4);
        let rdlength = read_u16(buffer, pos + 8) as usize;
        let s = pos + 10;
        if rdlength > buffer.len() - s {
            return Err(Error::Underrun);
        }
        let (data, end) = match parse_rdata(buffer, record_type, class, ttl, s, rdlength) {
            Ok(r) => r,
            Err(x) => return Err(x),
        };
        if end - s != rdlength {
            return Err(Error::InvalidFormat);
        }
        let rr = ResourceRecord { name, record_type, class, ttl, data };
        Ok((rr, end - offset))
    }
}

fn write_txt(strings: &Vec<String>, buffer: &mut Vec<u8>)
    ensures
        final(buffer)@ == old(buffer)@ + txt_bytes(strings_model(strings@)),
{
    let ghost b0 = buffer@;
    let ghost v = strings_model(strings@);
    let mut i: usize = 0;
    while i < strings.len()
        invariant
            i <= strings@.len(),
            v == strings_model(strings@),
            b0 == old(buffer)@,
            buffer@ == b0 + txt_bytes(v.subrange(0, i as int)),
        decreases strings@.len() - i,
    {
        let bytes = string_bytes(&strings[i]);
        assert(bytes@ == v[i as int]);
        if bytes.len() > 255 {
            buffer.push(255u8);
            push_bytes(buffer, slice_subrange(bytes, 0, 255));
        } else {
            buffer.push(bytes.len() as u8);
            push_bytes(buffer, bytes);
        }
        proof {
            let sub = v.subrange(0, i + 1);
            assert(sub.drop_last() =~= v.subrange(0, i as int));
            assert(sub.last() == v[i as int]);
            assert(buffer@ =~= b0 + txt_bytes(sub));
        }
        i = i + 1;
    }
    assert(v.subrange(0, i as int) =~= v);
}

fn write_options(options: &Vec<(u16, Vec<u8>)>, buffer: &mut Vec<u8>)
    ensures
        final(buffer)@ == old(buffer)@ + options_bytes(options_model(options@)),
{
    let ghost b0 = buffer@;
    let ghost v = options_model(options@);
    let mut i: usize = 0;
    while i < options.len()
        invariant
            i <= options@.len(),
            v == options_model(options@),
            b0 == old(buffer)@,
            buffer@ == b0 + options_bytes(v.subrange(0, i as int)),
        decreases options@.len() - i,
    {
        let code = options[i].0;
        let data = &options[i].1;
        assert(v[i as int] == (code, data@));
        push_u16(buffer, code);
        push_u16(buffer, #[verifier::truncate] (data.len() as u16));
        push_bytes(buffer, data.as_slice());
        proof {
            let sub = v.subrange(0, i + 1);
            assert(sub.drop_last() =~= v.subrange(0, i as int));
            assert(sub.last() == v[i as int]);
            assert(buffer@ =~= b0 + options_bytes(sub));
        }
        i = i + 1;
    }
    assert(v.subrange(0, i as int) =~= v);
}

/// Appends the RDATA; names in it are compressed and recorded.
#[verifier::spinoff_prover]
#[verifier::rlimit(30)]
fn write_rdata(data: &RData, buffer: &mut Vec<u8>, name_positions: &mut NamePositions)
    ensures
        ({
            let (rd, p) = spec_write_rdata(data@, old(buffer)@.len(), old(name_positions)@);
            &&& final(buffer)@ == old(buffer)@ + rd
            &&& final(name_positions)@ == p
        }),
{
    let ghost b0 = buffer@;
    let ghost p0 = name_positions@;
    match data {
        RData::A(ip) => {
            push_bytes(buffer, ip.as_slice());
        },
        RData::AAAA(ip) => {
            push_bytes(buffer, ip.as_slice());
        },
        RData::CNAME(n) => {
            n.write(buffer, name_positions);
        },
        RData::NS(n) => {
            n.write(buffer, name_positions);
        },
        RData::MX { preference, exchange } => {
            push_u16(buffer, *preference);
            exchange.write(buffer, name_positions);
            assert(buffer@ =~= b0 + spec_write_rdata(data@, b0.len(), p0).0);
        },
        RData::PTR(n) => {
            n.write(buffer, name_positions);
        },
        RData::SOA { mname, rname, serial, refresh, retry, expire, minimum } => {
            mname.write(buffer, name_positions);
            rname.write(buffer, name_positions);
            push_u32(buffer, *serial);
            push_u32(buffer, *refresh);
            push_u32(buffer, *retry);
            push_u32(buffer, *expire);
            push_u32(buffer, *minimum);
            assert(buffer@ =~= b0 + spec_write_rdata(data@, b0.len(), p0).0);
        },
        RData::TXT(strings) => {
            write_txt(strings, buffer);
        },
        RData::SRV { priority, weight, port, target } => {
            push_u16(buffer, *priority);
            push_u16(buffer, *weight);
            push_u16(buffer, *port);
            target.write(buffer, name_positions);
            assert(buffer@ =~= b0 + spec_write_rdata(data@, b0.len(), p0).0);
        },
        RData::OPT { options, .. } => {
            write_options(options, buffer);
        },
        RData::DS { key_tag, algorithm, digest_type, digest } => {
            push_u16(buffer, *key_tag);
            buffer.push(*algorithm);
            buffer.push(*digest_type);
            push_bytes(buffer, digest.as_slice());
            assert(buffer@ =~= b0 + spec_write_rdata(data@, b0.len(), p0).0);
        },
        RData::RRSIG {
            type_covered,
            algorithm,
            labels,
            original_ttl,
            signature_expiration,
            signature_inception,
            key_tag,
            signer_name,
            signature,
        } => {
            push_u16(buffer, *type_covered);
            buffer.push(*algorithm);
            buffer.push(*labels);
            push_u32(buffer, *original_ttl);
            push_u32(buffer, *signature_expiration);
            push_u32(buffer, *signature_inception);
            push_u16(buffer, *key_tag);
            signer_name.write(buffer, name_positions);
            push_bytes(buffer, signature.as_slice());
            assert(buffer@ =~= b0 + spec_write_rdata(data@, b0.len(), p0).0);
        },
        RData::NSEC { next_domain_name, type_bit_maps } => {
            next_domain_name.write(buffer, name_positions);
            push_bytes(buffer, type_bit_maps.as_slice());
            assert(buffer@ =~= b0 + spec_write_rdata(data@, b0.len(), p0).0);
        },
        RData::DNSKEY { flags, protocol, algorithm, public_key } => {
            push_u16(buffer, *flags);
            buffer.push(*protocol);
            buffer.push(*algorithm);
            push_bytes(buffer, public_key.as_slice());
            assert(buffer@ =~= b0 + spec_write_rdata(data@, b0.len(), p0).0);
        },
        RData::NSEC3 {
            hash_algorithm,
            flags,
            iterations,
            salt,
            next_hashed_owner_name,
            type_bit_maps,
        } => {
            buffer.push(*hash_algorithm);
            buffer.push(*flags);
            push_u16(buffer, *iterations);
            buffer.push(#[verifier::truncate] (salt.len() as u8));
            push_bytes(buffer, salt.as_slice());
            buffer.push(#[verifier::truncate] (next_hashed_owner_name.len() as u8));
            push_bytes(buffer, next_hashed_owner_name.as_slice());
            push_bytes(buffer, type_bit_maps.as_slice());
            assert(buffer@ =~= b0 + spec_write_rdata(data@, b0.len(), p0).0);
        },
        RData::NSEC3PARAM { hash_algorithm, flags, iterations, salt } => {
            buffer.push(*hash_algorithm);
            buffer.push(*flags);
            push_u16(buffer, *iterations);
            buffer.push(#[verifier::truncate] (salt.len() as u8));
            push_bytes(buffer, salt.as_slice());
            assert(buffer@ =~= b0 + spec_write_rdata(data@, b0.len(), p0).0);
        },
        RData::CAA { flags, tag, value } => {
            let tag_bytes = string_bytes(tag);
            buffer.push(*flags);
            buffer.push(#[verifier::truncate] (tag_bytes.len() as u8));
            push_bytes(buffer, tag_bytes);
            push_bytes(buffer, value.as_slice());
            assert(buffer@ =~= b0 + spec_write_rdata(data@, b0.len(), p0).0);
        },
        RData::Unknown(d) => {
            push_bytes(buffer, d.as_slice());
        },
    }
}

impl ResourceRecord {
    /// Appends the resource record; names are compressed and recorded.
    /// RDLENGTH is the length of the RDATA written, cut to 16 bits.  Returns
    /// the number of bytes written.
    pub fn write(&self, buffer: &mut Vec<u8>, name_positions: &mut NamePositions) -> (r: usize)
        ensures
            ({
                let (bytes, p) = spec_write_record(self@, old(buffer)@.len(), old(name_positions)@);
                &&& final(buffer)@ == old(buffer)@ + bytes
                &&& final(name_positions)@ == p
                &&& r == bytes.len()
            }),
    {
        let ghost b0 = buffer@;
        let ghost p0 = name_positions@;
        let start_pos = buffer.len();
        self.name.write(buffer, name_positions);
        let ghost b1 = buffer@;
        push_u16(buffer, self.record_type.to_u16());
        push_u16(buffer, self.class.to_u16());
        push_u32(buffer, self.ttl);
        let rdlength_pos = buffer.len();
        buffer.push(0u8);
        buffer.push(0u8);
        let rdata_start = buffer.len();
        let ghost b2 = buffer@;
        write_rdata(&self.data, buffer, name_positions);
        let ghost rd = buffer@.subrange(b2.len() as int, buffer@.len() as int);
        assert(buffer@ =~= b2 + rd);
        let rdata_len = buffer.len() - rdata_start;
        let rl: u16 = #[verifier::truncate] (rdata_len as u16);
        buffer.set(rdlength_pos, (rl / 256) as u8);
        buffer.set(rdlength_pos + 1, (rl % 256) as u8);
        proof {
            reveal(spec_write_record);
            let (nb, p1) = spec_write_name(self@.name, b0.len(), p0);
            assert(b1 == b0 + nb);
            let (rd2, p2) = spec_write_rdata(self@.data, b0.len() + nb.len() + 10, p1);
            assert(rd == rd2);
            assert(buffer@ =~= b0 + spec_write_record(self@, b0.len(), p0).0);
        }
        buffer.len() - start_pos
    }
}

} // verus!
