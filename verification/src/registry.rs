//! The scheme registry: the single lookup table that decides which schemes
//! are special and what their default ports are. Two engine instances built
//! against different table snapshots may legitimately disagree; that
//! divergence is a documented characteristic, not a defect, so the registry
//! is an explicit value handed to every operation that consults it.

use vstd::prelude::*;
use crate::uri::{Uri, UriModel};

verus! {

#[verifier::ext_equal]
pub struct SchemeInfoModel {
    pub name: Seq<u8>,
    pub default_port: Option<u16>,
    pub special: bool,
}

/// One registry row: scheme name, its default port if any, and whether the
/// scheme takes part in default-port and normalization rules.
#[derive(Clone, Debug, PartialEq, Eq)]
pub struct SchemeInfo {
    pub name: Vec<u8>,
    pub default_port: Option<u16>,
    pub special: bool,
}

impl View for SchemeInfo {
    type V = SchemeInfoModel;

    open spec fn view(&self) -> SchemeInfoModel {
        SchemeInfoModel { name: self.name@, default_port: self.default_port, special: self.special }
    }
}

impl DeepView for SchemeInfo {
    type V = SchemeInfoModel;

    open spec fn deep_view(&self) -> SchemeInfoModel {
        self.view()
    }
}

/// A read-only lookup table from scheme name to its row. It is initialized
/// once and never mutated afterwards.
#[derive(Clone, Debug, PartialEq, Eq)]
pub struct SchemeRegistry {
    pub entries: Vec<SchemeInfo>,
}

impl View for SchemeRegistry {
    type V = Seq<SchemeInfoModel>;

    open spec fn view(&self) -> Seq<SchemeInfoModel> {
        self.entries.deep_view()
    }
}

/// First row whose name equals `name`, if any.
pub open spec fn lookup(entries: Seq<SchemeInfoModel>, name: Seq<u8>) -> Option<SchemeInfoModel>
    decreases entries.len(),
{
    if entries.len() == 0 {
        None
    } else if entries[0].name == name {
        Some(entries[0])
    } else {
        lookup(entries.skip(1), name)
    }
}

/// The explicit port when present; otherwise the registry default, but only
/// for schemes the registry marks special.
pub open spec fn port_or_default_model(u: UriModel, reg: Seq<SchemeInfoModel>) -> Option<u16> {
    match u.port {
        Some(p) => Some(p),
        None => match lookup(reg, u.scheme) {
            Some(e) => if e.special {
                e.default_port
            } else {
                None
            },
            None => None,
        },
    }
}

pub open spec fn scheme_http() -> Seq<u8> {
    seq![104u8, 116u8, 116u8, 112u8]
}

pub open spec fn scheme_https() -> Seq<u8> {
    seq![104u8, 116u8, 116u8, 112u8, 115u8]
}

pub open spec fn scheme_ws() -> Seq<u8> {
    seq![119u8, 115u8]
}

pub open spec fn scheme_wss() -> Seq<u8> {
    seq![119u8, 115u8, 115u8]
}

pub open spec fn scheme_ftp() -> Seq<u8> {
    seq![102u8, 116u8, 112u8]
}

pub open spec fn scheme_file() -> Seq<u8> {
    seq![102u8, 105u8, 108u8, 101u8]
}

/// The table this build of the engine ships with.
pub open spec fn default_registry_model() -> Seq<SchemeInfoModel> {
    seq![
        SchemeInfoModel { name: scheme_http(), default_port: Some(80u16), special: true },
        SchemeInfoModel { name: scheme_https(), default_port: Some(443u16), special: true },
        SchemeInfoModel { name: scheme_ws(), default_port: Some(80u16), special: true },
        SchemeInfoModel { name: scheme_wss(), default_port: Some(443u16), special: true },
        SchemeInfoModel { name: scheme_ftp(), default_port: Some(21u16), special: true },
        SchemeInfoModel { name: scheme_file(), default_port: None, special: true },
    ]
}

impl SchemeInfo {
    pub fn new(name: Vec<u8>, default_port: Option<u16>, special: bool) -> (r: SchemeInfo)
        ensures
            r@ == (SchemeInfoModel { name: name@, default_port, special }),
    {
        SchemeInfo { name, default_port, special }
    }
}

impl SchemeRegistry {
    /// An empty table, for callers that assemble their own snapshot.
    pub fn empty() -> (r: SchemeRegistry)
        ensures
            r@ == Seq::<SchemeInfoModel>::empty(),
    {
        let r = SchemeRegistry { entries: Vec::new() };
        proof {
            assert(r@ =~= Seq::<SchemeInfoModel>::empty());
        }
        r
    }

    pub fn add(&mut self, info: SchemeInfo)
        ensures
            final(self)@ == old(self)@.push(info@),
    {
        let ghost pre = self@;
        self.entries.push(info);
        proof {
            assert(self@ =~= pre.push(info@));
        }
    }

    /// The registry this build of the engine ships with: the special schemes
    /// http, https, ws, wss, ftp and file with their default ports.
    pub fn new() -> (r: SchemeRegistry)
        ensures
            r@ == default_registry_model(),
    {
        let mut r = SchemeRegistry::empty();
        let mut n: Vec<u8> = Vec::new();
        n.push(104);
        n.push(116);
        n.push(116);
        n.push(112);
        proof {
            assert(n@ =~= scheme_http());
        }
        r.add(SchemeInfo::new(n, Some(80), true));
        let mut n: Vec<u8> = Vec::new();
        n.push(104);
        n.push(116);
        n.push(116);
        n.push(112);
        n.push(115);
        proof {
            assert(n@ =~= scheme_https());
        }
        r.add(SchemeInfo::new(n, Some(443), true));
        let mut n: Vec<u8> = Vec::new();
        n.push(119);
        n.push(115);
        proof {
            assert(n@ =~= scheme_ws());
        }
        r.add(SchemeInfo::new(n, Some(80), true));
        let mut n: Vec<u8> = Vec::new();
        n.push(119);
        n.push(115);
        n.push(115);
        proof {
            assert(n@ =~= scheme_wss());
        }
        r.add(SchemeInfo::new(n, Some(443), true));
        let mut n: Vec<u8> = Vec::new();
        n.push(102);
        n.push(116);
        n.push(112);
        proof {
            assert(n@ =~= scheme_ftp());
        }
        r.add(SchemeInfo::new(n, Some(21), true));
        let mut n: Vec<u8> = Vec::new();
        n.push(102);
        n.push(105);
        n.push(108);
        n.push(101);
        proof {
            assert(n@ =~= scheme_file());
        }
        r.add(SchemeInfo::new(n, None, true));
        proof {
            assert(r@ =~= default_registry_model());
        }
        r
    }

    /// Executable registry lookup.
    pub fn find(&self, name: &Vec<u8>) -> (r: Option<&SchemeInfo>)
        ensures
            match r {
                Some(e) => lookup(self@, name@) == Some(e@),
                None => lookup(self@, name@) is None,
            },
    {
        let mut i: usize = 0;
        proof {
            assert(self@.skip(0) =~= self@);
        }
        while i < self.entries.len()
            invariant
                i <= self@.len(),
                self@.len() == self.entries@.len(),
                lookup(self@, name@) == lookup(self@.skip(i as int), name@),
            decreases self@.len() - i,
        {
            proof {
                assert(self@.skip(i as int)[0] == self@[i as int]);
                assert(self@[i as int] == self.entries@[i as int]@);
                assert(self@.skip(i as int).skip(1) =~= self@.skip(i as int + 1));
            }
            if crate::text::eq_bytes(&self.entries[i].name, name) {
                return Some(&self.entries[i]);
            }
            i += 1;
        }
        proof {
            assert(self@.skip(i as int) =~= Seq::<SchemeInfoModel>::empty());
        }
        None
    }
}

impl Uri {
    /// The explicit port when present, regardless of scheme; otherwise the
    /// registry default when the scheme is special; otherwise absent. A
    /// scheme the active registry does not mark special yields absent even
    /// if a port is historically associated with it.
    pub fn port_or_default(&self, reg: &SchemeRegistry) -> (r: Option<u16>)
        ensures
            r == port_or_default_model(self@, reg@),
    {
        match self.port {
            Some(p) => Some(p),
            None => match reg.find(&self.scheme) {
                Some(e) => if e.special {
                    e.default_port
                } else {
                    None
                },
                None => None,
            },
        }
    }
}

} // verus!
