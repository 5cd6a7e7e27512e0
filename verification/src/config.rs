//! Configuration entities and their interpretation.
//!
//! A configuration file arrives as a [`ConfigValue`] tree (the host shell
//! parses the text; the library owns every rule about its shape). A tree
//! either is a graph description (`type: "Graph"`) or a stack description
//! (`type: "Stack"`); the interpreters below state exactly which trees they
//! accept and what they extract.

use vstd::prelude::*;

use crate::protocol::{parse_ipv4, spec_parse_ipv4, Ipv4Addr, Route};

verus! {

/// A parsed configuration tree: the subset of JSON the configs use.
pub enum ConfigValue {
    Null,
    Bool(bool),
    Num(u32),
    Str(String),
    Arr(Vec<ConfigValue>),
    Obj(Vec<(String, ConfigValue)>),
}

/// Why a configuration tree was rejected.
#[derive(Clone, Copy, Debug, PartialEq, Eq, Structural)]
pub enum ConfigError {
    /// A required field is absent.
    MissingField,
    /// A field or element has the wrong shape.
    WrongType,
    /// A field's value is out of range (a bad address, an oversized number).
    InvalidValue,
}

impl ConfigValue {
    /// The first value bound to `key` in an object, if the tree is an
    /// object holding one.
    pub open spec fn spec_get(&self, key: Seq<char>) -> Option<ConfigValue>
        decreases self,
    {
        match self {
            ConfigValue::Obj(fields) => spec_fields_get(fields@, key),
            _ => None,
        }
    }
}

/// First binding of `key` in a field list.
pub open spec fn spec_fields_get(fields: Seq<(String, ConfigValue)>, key: Seq<char>) -> Option<
    ConfigValue,
>
    decreases fields.len(),
{
    if fields.len() == 0 {
        None
    } else if fields.first().0@ == key {
        Some(fields.first().1)
    } else {
        spec_fields_get(fields.drop_first(), key)
    }
}

/// Looks `key` up in an object tree.
pub fn config_get<'a>(v: &'a ConfigValue, key: &str) -> (r: Option<&'a ConfigValue>)
    ensures
        match r {
            Some(f) => v.spec_get(key@) == Some(*f),
            None => v.spec_get(key@) is None,
        },
{
    match v {
        ConfigValue::Obj(fields) => {
            let key_s: String = key.to_string();
            let n = fields.len();
            let mut i: usize = 0;
            proof {
                assert(fields@.skip(0) =~= fields@);
            }
            while i < n
                invariant
                    0 <= i <= n,
                    n == fields@.len(),
                    key_s@ == key@,
                    v.spec_get(key@) == spec_fields_get(fields@, key@),
                    spec_fields_get(fields@, key@) == spec_fields_get(
                        fields@.skip(i as int),
                        key@,
                    ),
                decreases n - i,
            {
                proof {
                    assert(fields@.skip(i as int).first() == fields@[i as int]);
                    assert(fields@.skip(i as int).drop_first() =~= fields@.skip(i + 1));
                }
                if fields[i].0 == key_s {
                    proof {
                        assert(fields@[i as int].0@ == key@);
                        assert(spec_fields_get(fields@.skip(i as int), key@) == Some(
                            fields@[i as int].1,
                        ));
                    }
                    return Some(&fields[i].1);
                }
                i = i + 1;
            }
            proof {
                assert(fields@.skip(n as int).len() == 0);
            }
            None
        },
        _ => None,
    }
}

/// An executable graph description: module names and directed links between
/// them, both by name.
pub struct GraphConfig {
    pub name: String,
    pub modules: Vec<String>,
    pub links: Vec<(String, String)>,
}

/// One NIC of a stack: which adapter drives it, the port it sits on, and
/// its addressing.
pub struct NicConfig {
    pub adapter_name: String,
    pub port: u16,
    pub ipv4: Ipv4Addr,
    pub netmask: Ipv4Addr,
}

/// One graph of a stack and the CPUs that each run a replica of it.
pub struct GraphEntry {
    pub name: String,
    pub cpus: Vec<u32>,
}

/// A stack: NICs, routes and graph placements.
pub struct StackConfig {
    pub name: String,
    pub nics: Vec<NicConfig>,
    pub routes: Vec<Route>,
    pub graphs: Vec<GraphEntry>,
}

fn require_str<'a>(v: &'a ConfigValue, key: &str) -> (r: Result<&'a String, ConfigError>)
    ensures
        match r {
            Ok(s) => v.spec_get(key@) == Some(ConfigValue::Str(*s)),
            Err(e) => {
                &&& (e == ConfigError::MissingField || e == ConfigError::WrongType)
                &&& (e == ConfigError::MissingField <==> v.spec_get(key@) is None)
                &&& (e == ConfigError::WrongType <==> (v.spec_get(key@) matches Some(f)
                    && !(f is Str)))
            },
        },
{
    match config_get(v, key) {
        Some(f) => match f {
            ConfigValue::Str(s) => Ok(s),
            _ => Err(ConfigError::WrongType),
        },
        None => Err(ConfigError::MissingField),
    }
}

fn require_num(v: &ConfigValue, key: &str) -> (r: Result<u32, ConfigError>)
    ensures
        match r {
            Ok(x) => v.spec_get(key@) == Some(ConfigValue::Num(x)),
            Err(e) => {
                &&& (e == ConfigError::MissingField || e == ConfigError::WrongType)
                &&& (e == ConfigError::MissingField <==> v.spec_get(key@) is None)
                &&& (e == ConfigError::WrongType <==> (v.spec_get(key@) matches Some(f)
                    && !(f is Num)))
            },
        },
{
    match config_get(v, key) {
        Some(f) => match f {
            ConfigValue::Num(x) => Ok(*x),
            _ => Err(ConfigError::WrongType),
        },
        None => Err(ConfigError::MissingField),
    }
}

fn require_arr<'a>(v: &'a ConfigValue, key: &str) -> (r: Result<&'a Vec<ConfigValue>, ConfigError>)
    ensures
        match r {
            Ok(a) => v.spec_get(key@) == Some(ConfigValue::Arr(*a)),
            Err(e) => {
                &&& (e == ConfigError::MissingField || e == ConfigError::WrongType)
                &&& (e == ConfigError::MissingField <==> v.spec_get(key@) is None)
                &&& (e == ConfigError::WrongType <==> (v.spec_get(key@) matches Some(f)
                    && !(f is Arr)))
            },
        },
{
    match config_get(v, key) {
        Some(f) => match f {
            ConfigValue::Arr(a) => Ok(a),
            _ => Err(ConfigError::WrongType),
        },
        None => Err(ConfigError::MissingField),
    }
}

/// The tree shape `GraphConfig::from_value` accepts: a string `name`, an
/// array of strings `modules`, and an array of two-string pairs `links`.
pub open spec fn graph_shape_ok(v: ConfigValue) -> bool {
    &&& (v.spec_get("name"@) matches Some(f) && f is Str)
    &&& (v.spec_get("modules"@) matches Some(ConfigValue::Arr(ms)) && (forall|i: int|
        0 <= i < ms@.len() ==> (#[trigger] ms@[i]) is Str))
    &&& (v.spec_get("links"@) matches Some(ConfigValue::Arr(ls)) && (forall|i: int|
        0 <= i < ls@.len() ==> ((#[trigger] ls@[i]) matches ConfigValue::Arr(p) && p@.len() == 2
            && p@[0] is Str && p@[1] is Str)))
}

/// The tree shape `NicConfig::from_value` accepts.
pub open spec fn nic_shape_ok(v: ConfigValue) -> bool {
    &&& (v.spec_get("adapter_name"@) matches Some(f) && f is Str)
    &&& (v.spec_get("port"@) matches Some(ConfigValue::Num(x)) && x <= 65535)
    &&& (v.spec_get("ipv4"@) matches Some(ConfigValue::Str(s)) && spec_parse_ipv4(
        vstd::utf8::encode_utf8(s@),
    ) is Some)
    &&& (v.spec_get("netmask"@) matches Some(ConfigValue::Str(s)) && spec_parse_ipv4(
        vstd::utf8::encode_utf8(s@),
    ) is Some)
}

/// The tree shape `route_from_value` accepts.
pub open spec fn route_shape_ok(v: ConfigValue) -> bool {
    &&& (v.spec_get("ipv4"@) matches Some(ConfigValue::Str(s)) && spec_parse_ipv4(
        vstd::utf8::encode_utf8(s@),
    ) is Some)
    &&& (v.spec_get("cidr"@) matches Some(ConfigValue::Num(c)) && c <= 32)
    &&& (v.spec_get("nic"@) matches Some(ConfigValue::Num(n)) && n <= 65535)
}

/// The tree shape `GraphEntry::from_value` accepts.
pub open spec fn entry_shape_ok(v: ConfigValue) -> bool {
    &&& (v.spec_get("name"@) matches Some(f) && f is Str)
    &&& (v.spec_get("cpus"@) matches Some(ConfigValue::Arr(cs)) && (forall|i: int|
        0 <= i < cs@.len() ==> (#[trigger] cs@[i]) is Num))
}

/// The tree shape `StackConfig::from_value` accepts: a string `name` and
/// the `nics`, `routes` and `graphs` arrays, each element well shaped.
pub open spec fn stack_shape_ok(v: ConfigValue) -> bool {
    &&& (v.spec_get("name"@) matches Some(f) && f is Str)
    &&& (v.spec_get("nics"@) matches Some(ConfigValue::Arr(a)) && (forall|i: int|
        0 <= i < a@.len() ==> nic_shape_ok(#[trigger] a@[i])))
    &&& (v.spec_get("routes"@) matches Some(ConfigValue::Arr(a)) && (forall|i: int|
        0 <= i < a@.len() ==> route_shape_ok(#[trigger] a@[i])))
    &&& (v.spec_get("graphs"@) matches Some(ConfigValue::Arr(a)) && (forall|i: int|
        0 <= i < a@.len() ==> entry_shape_ok(#[trigger] a@[i])))
}

impl GraphConfig {
    /// Interprets a `type: "Graph"` tree.
    ///
    /// Succeeds exactly when `name` is a string, `modules` an array of
    /// strings and `links` an array of two-string arrays; the result then
    /// carries those strings in order.
    pub fn from_value(v: &ConfigValue) -> (r: Result<GraphConfig, ConfigError>)
        ensures
            r is Ok <==> graph_shape_ok(*v),
            match r {
                Ok(g) => {
                    &&& v.spec_get("name"@) == Some(ConfigValue::Str(g.name))
                    &&& (v.spec_get("modules"@) matches Some(ConfigValue::Arr(ms)) && {
                        &&& g.modules@.len() == ms@.len()
                        &&& forall|i: int|
                            0 <= i < ms@.len() ==> ms@[i] == ConfigValue::Str(
                                #[trigger] g.modules@[i],
                            )
                    })
                    &&& (v.spec_get("links"@) matches Some(ConfigValue::Arr(ls)) && {
                        &&& g.links@.len() == ls@.len()
                        &&& forall|i: int|
                            0 <= i < ls@.len() ==> ((#[trigger] ls@[i])
                                matches ConfigValue::Arr(pair) && pair@.len() == 2 && pair@[0]
                                == ConfigValue::Str(g.links@[i].0) && pair@[1]
                                == ConfigValue::Str(g.links@[i].1))
                    })
                },
                Err(_) => true,
            },
    {
        let name = match require_str(v, "name") {
            Ok(s) => s.clone(),
            Err(e) => {
                return Err(e);
            },
        };
        let ms = match require_arr(v, "modules") {
            Ok(a) => a,
            Err(e) => {
                return Err(e);
            },
        };
        let mut modules: Vec<String> = Vec::new();
        let mut i: usize = 0;
        while i < ms.len()
            invariant
                v.spec_get("modules"@) == Some(ConfigValue::Arr(*ms)),
                0 <= i <= ms@.len(),
                modules@.len() == i,
                forall|j: int|
                    0 <= j < i ==> ms@[j] == ConfigValue::Str(#[trigger] modules@[j]),
            decreases ms@.len() - i,
        {
            match &ms[i] {
                ConfigValue::Str(s) => {
                    modules.push(s.clone());
                },
                _ => {
                    proof {
                        assert(!((ms@[i as int]) is Str));
                        assert(!graph_shape_ok(*v)) by {
                            if graph_shape_ok(*v) {
                                assert(v.spec_get("modules"@) == Some(ConfigValue::Arr(*ms)));
                                assert(ms@[i as int] is Str);
                            }
                        }
                    }
                    return Err(ConfigError::WrongType);
                },
            }
            i = i + 1;
        }
        let ls = match require_arr(v, "links") {
            Ok(a) => a,
            Err(e) => {
                return Err(e);
            },
        };
        let mut links: Vec<(String, String)> = Vec::new();
        let mut i: usize = 0;
        while i < ls.len()
            invariant
                v.spec_get("links"@) == Some(ConfigValue::Arr(*ls)),
                0 <= i <= ls@.len(),
                links@.len() == i,
                forall|j: int|
                    0 <= j < i ==> ((#[trigger] ls@[j]) matches ConfigValue::Arr(pair)
                        && pair@.len() == 2 && pair@[0] == ConfigValue::Str(links@[j].0)
                        && pair@[1] == ConfigValue::Str(links@[j].1)),
            decreases ls@.len() - i,
        {
            let ghost bad = !(ls@[i as int] matches ConfigValue::Arr(p) && p@.len() == 2
                && p@[0] is Str && p@[1] is Str);
            match &ls[i] {
                ConfigValue::Arr(pair) => {
                    if pair.len() != 2 {
                        proof {
                            assert(bad);
                            assert(exists|k: int|
                                0 <= k < ls@.len() && !((#[trigger] ls@[k])
                                    matches ConfigValue::Arr(p) && p@.len() == 2 && p@[0] is Str
                                    && p@[1] is Str));
                            assert(!graph_shape_ok(*v));
                        }
                        return Err(ConfigError::WrongType);
                    }
                    let a = match &pair[0] {
                        ConfigValue::Str(s) => s.clone(),
                        _ => {
                            proof {
                                assert(bad);
                                assert(!graph_shape_ok(*v));
                            }
                            return Err(ConfigError::WrongType);
                        },
                    };
                    let b = match &pair[1] {
                        ConfigValue::Str(s) => s.clone(),
                        _ => {
                            proof {
                                assert(bad);
                                assert(!graph_shape_ok(*v));
                            }
                            return Err(ConfigError::WrongType);
                        },
                    };
                    links.push((a, b));
                },
                _ => {
                    proof {
                        assert(bad);
                        assert(exists|k: int|
                            0 <= k < ls@.len() && !((#[trigger] ls@[k])
                                matches ConfigValue::Arr(p) && p@.len() == 2 && p@[0] is Str
                                && p@[1] is Str));
                        assert(!graph_shape_ok(*v));
                    }
                    return Err(ConfigError::WrongType);
                },
            }
            i = i + 1;
        }
        proof {
            assert forall|k: int| 0 <= k < ms@.len() implies (#[trigger] ms@[k]) is Str by {
                assert(ms@[k] == ConfigValue::Str(modules@[k]));
            }
        }
        Ok(GraphConfig { name, modules, links })
    }
}

impl NicConfig {
    /// Interprets one element of a stack's `nics` array: `adapter_name`, a
    /// `port` below 65536, and parseable `ipv4` and `netmask` addresses.
    pub fn from_value(v: &ConfigValue) -> (r: Result<NicConfig, ConfigError>)
        ensures
            r is Ok <==> nic_shape_ok(*v),
            match r {
                Ok(c) => {
                    &&& v.spec_get("adapter_name"@) == Some(ConfigValue::Str(c.adapter_name))
                    &&& v.spec_get("port"@) == Some(ConfigValue::Num(c.port as u32))
                    &&& (v.spec_get("ipv4"@) matches Some(ConfigValue::Str(s))
                        && spec_parse_ipv4(vstd::utf8::encode_utf8(s@)) == Some(c.ipv4.spec_octets()))
                    &&& (v.spec_get("netmask"@) matches Some(ConfigValue::Str(s))
                        && spec_parse_ipv4(vstd::utf8::encode_utf8(s@)) == Some(c.netmask.spec_octets()))
                },
                Err(_) => true,
            },
    {
        let adapter_name = match require_str(v, "adapter_name") {
            Ok(s) => s.clone(),
            Err(e) => {
                return Err(e);
            },
        };
        let port32 = match require_num(v, "port") {
            Ok(x) => x,
            Err(e) => {
                return Err(e);
            },
        };
        if port32 > 65535 {
            return Err(ConfigError::InvalidValue);
        }
        let ipv4 = match require_str(v, "ipv4") {
            Ok(s) => match parse_ipv4(s.as_str()) {
                Ok(a) => a,
                Err(_) => {
                    return Err(ConfigError::InvalidValue);
                },
            },
            Err(e) => {
                return Err(e);
            },
        };
        let netmask = match require_str(v, "netmask") {
            Ok(s) => match parse_ipv4(s.as_str()) {
                Ok(a) => a,
                Err(_) => {
                    return Err(ConfigError::InvalidValue);
                },
            },
            Err(e) => {
                return Err(e);
            },
        };
        Ok(NicConfig { adapter_name, port: port32 as u16, ipv4, netmask })
    }
}

/// Interprets one element of a stack's `routes` array: an `ipv4` prefix, a
/// `cidr` length of at most 32, and a `nic` index below 65536.
pub fn route_from_value(v: &ConfigValue) -> (r: Result<Route, ConfigError>)
    ensures
        r is Ok <==> route_shape_ok(*v),
        match r {
            Ok(route) => {
                &&& route.wf()
                &&& (v.spec_get("ipv4"@) matches Some(ConfigValue::Str(s)) && (
                spec_parse_ipv4(vstd::utf8::encode_utf8(s@)) matches Some(o) && route.ip
                    == crate::protocol::spec_u32_from_octets_le(o)))
                &&& v.spec_get("cidr"@) == Some(ConfigValue::Num(route.cidr as u32))
                &&& v.spec_get("nic"@) == Some(ConfigValue::Num(route.nic as u32))
            },
            Err(_) => true,
        },
{
    let ip = match require_str(v, "ipv4") {
        Ok(s) => match parse_ipv4(s.as_str()) {
            Ok(a) => a,
            Err(_) => {
                return Err(ConfigError::InvalidValue);
            },
        },
        Err(e) => {
            return Err(e);
        },
    };
    let cidr32 = match require_num(v, "cidr") {
        Ok(x) => x,
        Err(e) => {
            return Err(e);
        },
    };
    if cidr32 > 32 {
        return Err(ConfigError::InvalidValue);
    }
    let nic32 = match require_num(v, "nic") {
        Ok(x) => x,
        Err(e) => {
            return Err(e);
        },
    };
    if nic32 > 65535 {
        return Err(ConfigError::InvalidValue);
    }
    Ok(Route::new(ip, cidr32 as u8, nic32 as u16))
}

impl GraphEntry {
    /// Interprets one element of a stack's `graphs` array: a graph `name`
    /// and the `cpus` its replicas run on.
    pub fn from_value(v: &ConfigValue) -> (r: Result<GraphEntry, ConfigError>)
        ensures
            r is Ok <==> entry_shape_ok(*v),
            match r {
                Ok(g) => {
                    &&& v.spec_get("name"@) == Some(ConfigValue::Str(g.name))
                    &&& (v.spec_get("cpus"@) matches Some(ConfigValue::Arr(cs)) && {
                        &&& g.cpus@.len() == cs@.len()
                        &&& forall|i: int|
                            0 <= i < cs@.len() ==> cs@[i] == ConfigValue::Num(
                                #[trigger] g.cpus@[i],
                            )
                    })
                },
                Err(_) => true,
            },
    {
        let name = match require_str(v, "name") {
            Ok(s) => s.clone(),
            Err(e) => {
                return Err(e);
            },
        };
        let cs = match require_arr(v, "cpus") {
            Ok(a) => a,
            Err(e) => {
                return Err(e);
            },
        };
        let mut cpus: Vec<u32> = Vec::new();
        let mut i: usize = 0;
        while i < cs.len()
            invariant
                v.spec_get("cpus"@) == Some(ConfigValue::Arr(*cs)),
                0 <= i <= cs@.len(),
                cpus@.len() == i,
                forall|j: int| 0 <= j < i ==> cs@[j] == ConfigValue::Num(#[trigger] cpus@[j]),
            decreases cs@.len() - i,
        {
            match &cs[i] {
                ConfigValue::Num(x) => {
                    cpus.push(*x);
                },
                _ => {
                    proof {
                        assert(!((cs@[i as int]) is Num));
                        assert(exists|k: int|
                            0 <= k < cs@.len() && !((#[trigger] cs@[k]) is Num));
                        assert(!entry_shape_ok(*v));
                    }
                    return Err(ConfigError::WrongType);
                },
            }
            i = i + 1;
        }
        proof {
            assert forall|k: int| 0 <= k < cs@.len() implies (#[trigger] cs@[k]) is Num by {
                assert(cs@[k] == ConfigValue::Num(cpus@[k]));
            }
        }
        Ok(GraphEntry { name, cpus })
    }
}

impl StackConfig {
    /// Interprets a `type: "Stack"` tree: `name`, `nics`, `routes` and
    /// `graphs`, each element as its own interpreter states.
    pub fn from_value(v: &ConfigValue) -> (r: Result<StackConfig, ConfigError>)
        ensures
            r is Ok <==> stack_shape_ok(*v),
            match r {
                Ok(s) => {
                    &&& v.spec_get("name"@) == Some(ConfigValue::Str(s.name))
                    &&& (v.spec_get("nics"@) matches Some(ConfigValue::Arr(a)) && a@.len()
                        == s.nics@.len())
                    &&& (v.spec_get("routes"@) matches Some(ConfigValue::Arr(a)) && a@.len()
                        == s.routes@.len())
                    &&& (v.spec_get("graphs"@) matches Some(ConfigValue::Arr(a)) && a@.len()
                        == s.graphs@.len())
                    &&& forall|i: int| 0 <= i < s.routes@.len() ==> (#[trigger] s.routes@[i]).wf()
                },
                Err(_) => true,
            },
    {
        let name = match require_str(v, "name") {
            Ok(s) => s.clone(),
            Err(e) => {
                return Err(e);
            },
        };
        let nics_arr = match require_arr(v, "nics") {
            Ok(a) => a,
            Err(e) => {
                return Err(e);
            },
        };
        let mut nics: Vec<NicConfig> = Vec::new();
        let mut i: usize = 0;
        while i < nics_arr.len()
            invariant
                v.spec_get("nics"@) == Some(ConfigValue::Arr(*nics_arr)),
                0 <= i <= nics_arr@.len(),
                nics@.len() == i,
                forall|j: int| 0 <= j < i ==> nic_shape_ok(#[trigger] nics_arr@[j]),
            decreases nics_arr@.len() - i,
        {
            match NicConfig::from_value(&nics_arr[i]) {
                Ok(c) => {
                    nics.push(c);
                },
                Err(e) => {
                    proof {
                        assert(!nic_shape_ok(nics_arr@[i as int]));
                        assert(!stack_shape_ok(*v)) by {
                            if stack_shape_ok(*v) {
                                assert((v.spec_get("nics"@) matches Some(ConfigValue::Arr(ab))
                                    && ab == *nics_arr && (forall|k: int|
                                    0 <= k < ab@.len() ==> nic_shape_ok(#[trigger] ab@[k]))));
                                assert(nic_shape_ok(nics_arr@[i as int]));
                            }
                        }
                    }
                    return Err(e);
                },
            }
            i = i + 1;
        }
        let routes_arr = match require_arr(v, "routes") {
            Ok(a) => a,
            Err(e) => {
                return Err(e);
            },
        };
        let mut routes: Vec<Route> = Vec::new();
        let mut i: usize = 0;
        while i < routes_arr.len()
            invariant
                v.spec_get("routes"@) == Some(ConfigValue::Arr(*routes_arr)),
                0 <= i <= routes_arr@.len(),
                routes@.len() == i,
                forall|j: int| 0 <= j < i ==> route_shape_ok(#[trigger] routes_arr@[j]),
                forall|j: int| 0 <= j < i ==> (#[trigger] routes@[j]).wf(),
            decreases routes_arr@.len() - i,
        {
            match route_from_value(&routes_arr[i]) {
                Ok(r) => {
                    routes.push(r);
                },
                Err(e) => {
                    proof {
                        assert(!route_shape_ok(routes_arr@[i as int]));
                        assert(!stack_shape_ok(*v)) by {
                            if stack_shape_ok(*v) {
                                assert((v.spec_get("routes"@) matches Some(ConfigValue::Arr(ab))
                                    && ab == *routes_arr && (forall|k: int|
                                    0 <= k < ab@.len() ==> route_shape_ok(#[trigger] ab@[k]))));
                                assert(route_shape_ok(routes_arr@[i as int]));
                            }
                        }
                    }
                    return Err(e);
                },
            }
            i = i + 1;
        }
        let graphs_arr = match require_arr(v, "graphs") {
            Ok(a) => a,
            Err(e) => {
                return Err(e);
            },
        };
        let mut graphs: Vec<GraphEntry> = Vec::new();
        let mut i: usize = 0;
        while i < graphs_arr.len()
            invariant
                v.spec_get("graphs"@) == Some(ConfigValue::Arr(*graphs_arr)),
                0 <= i <= graphs_arr@.len(),
                graphs@.len() == i,
                forall|j: int| 0 <= j < i ==> entry_shape_ok(#[trigger] graphs_arr@[j]),
            decreases graphs_arr@.len() - i,
        {
            match GraphEntry::from_value(&graphs_arr[i]) {
                Ok(g) => {
                    graphs.push(g);
                },
                Err(e) => {
                    proof {
                        assert(!entry_shape_ok(graphs_arr@[i as int]));
                        assert(!stack_shape_ok(*v)) by {
                            if stack_shape_ok(*v) {
                                assert((v.spec_get("graphs"@) matches Some(ConfigValue::Arr(ab))
                                    && ab == *graphs_arr && (forall|k: int|
                                    0 <= k < ab@.len() ==> entry_shape_ok(#[trigger] ab@[k]))));
                                assert(entry_shape_ok(graphs_arr@[i as int]));
                            }
                        }
                    }
                    return Err(e);
                },
            }
            i = i + 1;
        }
        Ok(StackConfig { name, nics, routes, graphs })
    }
}

/// The `type` tag of a tree, when it is a string field.
pub open spec fn spec_type_tag(v: ConfigValue) -> Option<Seq<char>> {
    match v.spec_get("type"@) {
        Some(ConfigValue::Str(s)) => Some(s@),
        _ => None,
    }
}

/// The `name` field of a tree, when it is a string (empty otherwise).
pub open spec fn spec_cfg_name(v: ConfigValue) -> Seq<char> {
    match v.spec_get("name"@) {
        Some(ConfigValue::Str(s)) => s@,
        _ => Seq::empty(),
    }
}

/// What `load_value` did with a tree.
#[derive(Clone, Copy, Debug, PartialEq, Eq, Structural)]
pub enum LoadOutcome {
    AddedGraph,
    AddedStack,
    /// A config of the same type and name already exists; the tree was
    /// skipped.
    SkippedDuplicate,
}

/// All parsed configurations, loaded once at startup and read-only after.
pub struct ConfigManager {
    graph_configs: Vec<GraphConfig>,
    stack_configs: Vec<StackConfig>,
}

impl ConfigManager {
    pub closed spec fn spec_graphs(&self) -> Seq<GraphConfig> {
        self.graph_configs@
    }

    pub closed spec fn spec_stacks(&self) -> Seq<StackConfig> {
        self.stack_configs@
    }

    /// The first loaded graph config with this name.
    pub open spec fn spec_graph_of(&self, name: Seq<char>) -> Option<GraphConfig> {
        spec_first_graph(self.spec_graphs(), name)
    }

    /// The first loaded stack config with this name.
    pub open spec fn spec_stack_of(&self, name: Seq<char>) -> Option<StackConfig> {
        spec_first_stack(self.spec_stacks(), name)
    }

    /// Whether a graph config with this name is loaded.
    pub open spec fn has_graph(&self, name: Seq<char>) -> bool {
        exists|i: int| 0 <= i < self.spec_graphs().len() && self.spec_graphs()[i].name@ == name
    }

    /// Whether a stack config with this name is loaded.
    pub open spec fn has_stack(&self, name: Seq<char>) -> bool {
        exists|i: int| 0 <= i < self.spec_stacks().len() && self.spec_stacks()[i].name@ == name
    }

    /// An empty manager.
    pub fn get() -> (r: Self)
        ensures
            r.spec_graphs().len() == 0,
            r.spec_stacks().len() == 0,
    {
        ConfigManager { graph_configs: Vec::new(), stack_configs: Vec::new() }
    }

    /// Files a parsed tree under its `type`. A second config of one type
    /// and name is skipped, never replaced; an unknown or missing `type` is
    /// an error.
    pub fn load_value(&mut self, v: &ConfigValue) -> (r: Result<LoadOutcome, ConfigError>)
        ensures
            match r {
                Ok(LoadOutcome::AddedGraph) => {
                    &&& final(self).spec_stacks() == old(self).spec_stacks()
                    &&& final(self).spec_graphs().len() == old(self).spec_graphs().len() + 1
                    &&& forall|i: int|
                        0 <= i < old(self).spec_graphs().len() ==> final(self).spec_graphs()[i]
                            == old(self).spec_graphs()[i]
                    &&& !old(self).has_graph(
                        final(self).spec_graphs().last().name@,
                    )
                },
                Ok(LoadOutcome::AddedStack) => {
                    &&& final(self).spec_graphs() == old(self).spec_graphs()
                    &&& final(self).spec_stacks().len() == old(self).spec_stacks().len() + 1
                    &&& forall|i: int|
                        0 <= i < old(self).spec_stacks().len() ==> final(self).spec_stacks()[i]
                            == old(self).spec_stacks()[i]
                    &&& !old(self).has_stack(
                        final(self).spec_stacks().last().name@,
                    )
                },
                Ok(LoadOutcome::SkippedDuplicate) => {
                    &&& final(self).spec_graphs() == old(self).spec_graphs()
                    &&& final(self).spec_stacks() == old(self).spec_stacks()
                },
                Err(_) => {
                    &&& final(self).spec_graphs() == old(self).spec_graphs()
                    &&& final(self).spec_stacks() == old(self).spec_stacks()
                },
            },
            r == Ok::<LoadOutcome, ConfigError>(LoadOutcome::AddedGraph) <==> (spec_type_tag(*v)
                == Some("Graph"@) && graph_shape_ok(*v) && !old(self).has_graph(
                spec_cfg_name(*v),
            )),
            r == Ok::<LoadOutcome, ConfigError>(LoadOutcome::AddedStack) <==> (spec_type_tag(*v)
                == Some("Stack"@) && stack_shape_ok(*v) && !old(self).has_stack(
                spec_cfg_name(*v),
            )),
            r == Ok::<LoadOutcome, ConfigError>(LoadOutcome::SkippedDuplicate) <==> ((
            spec_type_tag(*v) == Some("Graph"@) && graph_shape_ok(*v) && old(self).has_graph(
                spec_cfg_name(*v),
            )) || (spec_type_tag(*v) == Some("Stack"@) && stack_shape_ok(*v) && old(
                self,
            ).has_stack(spec_cfg_name(*v)))),
    {
        proof {
            reveal_strlit("Graph");
            reveal_strlit("Stack");
            assert("Graph"@[0] == 'G');
            assert("Stack"@[0] == 'S');
            assert("Graph"@ != "Stack"@);
        }
        let ty = match require_str(v, "type") {
            Ok(s) => s,
            Err(e) => {
                return Err(e);
            },
        };
        let graph_tag: String = "Graph".to_string();
        let stack_tag: String = "Stack".to_string();
        proof {
            assert(graph_tag@ == "Graph"@);
            assert(stack_tag@ == "Stack"@);
        }
        if *ty == graph_tag {
            proof {
                assert(ty@ == "Graph"@);
                assert(spec_type_tag(*v) == Some("Graph"@));
                assert(spec_type_tag(*v) != Some("Stack"@));
            }
            let g = match GraphConfig::from_value(v) {
                Ok(g) => g,
                Err(e) => {
                    return Err(e);
                },
            };
            proof {
                assert(spec_type_tag(*v) == Some(ty@));
                assert(spec_cfg_name(*v) == g.name@);
            }
            if self.get_graph_config(g.name.as_str()).is_some() {
                return Ok(LoadOutcome::SkippedDuplicate);
            }
            self.graph_configs.push(g);
            Ok(LoadOutcome::AddedGraph)
        } else if *ty == stack_tag {
            proof {
                assert(ty@ == "Stack"@);
                assert(spec_type_tag(*v) == Some("Stack"@));
                assert(spec_type_tag(*v) != Some("Graph"@));
            }
            let s = match StackConfig::from_value(v) {
                Ok(s) => s,
                Err(e) => {
                    return Err(e);
                },
            };
            proof {
                assert(spec_type_tag(*v) == Some(ty@));
                assert(spec_cfg_name(*v) == s.name@);
            }
            if self.get_stack_config(s.name.as_str()).is_some() {
                return Ok(LoadOutcome::SkippedDuplicate);
            }
            self.stack_configs.push(s);
            Ok(LoadOutcome::AddedStack)
        } else {
            proof {
                assert(spec_type_tag(*v) == Some(ty@));
            }
            Err(ConfigError::WrongType)
        }
    }

    /// The loaded graph config of this name, if any: the first (and only)
    /// one carrying it.
    pub fn get_graph_config<'a>(&'a self, name: &str) -> (r: Option<&'a GraphConfig>)
        ensures
            match r {
                Some(g) => self.spec_graph_of(name@) == Some(*g) && g.name@ == name@
                    && self.has_graph(name@),
                None => !self.has_graph(name@) && self.spec_graph_of(name@) is None,
            },
    {
        let key: String = name.to_string();
        let n = self.graph_configs.len();
        let mut i: usize = 0;
        while i < n
            invariant
                0 <= i <= n,
                n == self.spec_graphs().len(),
                key@ == name@,
                forall|j: int| 0 <= j < i ==> self.spec_graphs()[j].name@ != name@,
            decreases n - i,
        {
            if self.graph_configs[i].name == key {
                proof {
                    lemma_first_graph_skip(self.spec_graphs(), name@, i as int);
                    assert(self.spec_graphs().skip(i as int).first() == self.spec_graphs()[
                        i as int]);
                    assert(self.spec_graphs()[i as int].name@ == name@);
                }
                return Some(&self.graph_configs[i]);
            }
            i = i + 1;
        }
        proof {
            lemma_first_graph_skip(self.spec_graphs(), name@, n as int);
            assert(self.spec_graphs().skip(n as int).len() == 0);
        }
        None
    }

    /// The loaded stack config of this name, if any.
    pub fn get_stack_config<'a>(&'a self, name: &str) -> (r: Option<&'a StackConfig>)
        ensures
            match r {
                Some(s) => self.spec_stack_of(name@) == Some(*s) && s.name@ == name@
                    && self.has_stack(name@),
                None => !self.has_stack(name@) && self.spec_stack_of(name@) is None,
            },
    {
        let key: String = name.to_string();
        let n = self.stack_configs.len();
        let mut i: usize = 0;
        while i < n
            invariant
                0 <= i <= n,
                n == self.spec_stacks().len(),
                key@ == name@,
                forall|j: int| 0 <= j < i ==> self.spec_stacks()[j].name@ != name@,
            decreases n - i,
        {
            if self.stack_configs[i].name == key {
                proof {
                    lemma_first_stack_skip(self.spec_stacks(), name@, i as int);
                    assert(self.spec_stacks().skip(i as int).first() == self.spec_stacks()[
                        i as int]);
                    assert(self.spec_stacks()[i as int].name@ == name@);
                }
                return Some(&self.stack_configs[i]);
            }
            i = i + 1;
        }
        proof {
            lemma_first_stack_skip(self.spec_stacks(), name@, n as int);
            assert(self.spec_stacks().skip(n as int).len() == 0);
        }
        None
    }
}


/// First graph config carrying `name`.
pub open spec fn spec_first_graph(gs: Seq<GraphConfig>, name: Seq<char>) -> Option<GraphConfig>
    decreases gs.len(),
{
    if gs.len() == 0 {
        None
    } else if gs.first().name@ == name {
        Some(gs.first())
    } else {
        spec_first_graph(gs.drop_first(), name)
    }
}

/// First stack config carrying `name`.
pub open spec fn spec_first_stack(ss: Seq<StackConfig>, name: Seq<char>) -> Option<StackConfig>
    decreases ss.len(),
{
    if ss.len() == 0 {
        None
    } else if ss.first().name@ == name {
        Some(ss.first())
    } else {
        spec_first_stack(ss.drop_first(), name)
    }
}

/// Skipping a prefix without the name leaves the first match unchanged.
proof fn lemma_first_graph_skip(gs: Seq<GraphConfig>, name: Seq<char>, i: int)
    requires
        0 <= i <= gs.len(),
        forall|j: int| 0 <= j < i ==> gs[j].name@ != name,
    ensures
        spec_first_graph(gs, name) == spec_first_graph(gs.skip(i), name),
    decreases i,
{
    if i > 0 {
        assert(gs.first().name@ != name);
        assert(gs.drop_first().skip(i - 1) =~= gs.skip(i));
        assert forall|j: int| 0 <= j < i - 1 implies gs.drop_first()[j].name@ != name by {
            assert(gs[j + 1].name@ != name);
        }
        lemma_first_graph_skip(gs.drop_first(), name, i - 1);
    } else {
        assert(gs.skip(0) =~= gs);
    }
}

proof fn lemma_first_stack_skip(ss: Seq<StackConfig>, name: Seq<char>, i: int)
    requires
        0 <= i <= ss.len(),
        forall|j: int| 0 <= j < i ==> ss[j].name@ != name,
    ensures
        spec_first_stack(ss, name) == spec_first_stack(ss.skip(i), name),
    decreases i,
{
    if i > 0 {
        assert(ss.first().name@ != name);
        assert(ss.drop_first().skip(i - 1) =~= ss.skip(i));
        assert forall|j: int| 0 <= j < i - 1 implies ss.drop_first()[j].name@ != name by {
            assert(ss[j + 1].name@ != name);
        }
        lemma_first_stack_skip(ss.drop_first(), name, i - 1);
    } else {
        assert(ss.skip(0) =~= ss);
    }
}

} // verus!
