use vstd::prelude::*;

use crate::path::{path_parse, Path};
use crate::smap::{kv_find, kv_view, lemma_map_get_first, lemma_map_get_has, map_get};
use crate::text::strip_prefix_s;

verus! {

/// One operation of the source API description, reduced to the values
/// this crate reads: its tag names, identifier, description and
/// parameters.
pub struct OperationSource {
    pub tags: Vec<String>,
    pub operation_id: Option<String>,
    pub description: Option<String>,
    pub parameters: Vec<ParameterSource>,
}

/// A parameter as the description lists it: inline data, or a reference
/// into the shared parameter components.
pub enum ParameterSource {
    Reference(String),
    Item(ParameterInfo),
}

/// The data read from one parameter.
pub struct ParameterInfo {
    pub name: String,
    pub description: Option<String>,
}

/// A command-line flag derived from one parameter.
#[derive(Debug, PartialEq, Eq)]
pub struct OperationFlag {
    pub name: String,
    pub description: Option<String>,
}

/// One fully resolved operation.
#[derive(Debug, PartialEq, Eq)]
pub struct Operation {
    pub description: Option<String>,
    pub flags: Vec<OperationFlag>,
    pub operation_id: String,
    pub path: Path,
    pub tag: String,
    pub verb: String,
}

#[derive(Debug, PartialEq, Eq)]
pub enum OperationCreationError {
    UnexpectedNumberOfTags { got: usize, path: String, verb: String },
    OperationIdMissing { path: String, verb: String },
    EmptyPath { operation_id: String },
    ComponentsAreMissing,
    ParameterNotFound { parameter_name: String },
    ParameterIsAReference { parameter_name: String },
}

/// What trimming whitespace from both ends of a string yields. The
/// result depends on the characters alone; it is computed by the
/// standard library and not spelled out here.
pub uninterp spec fn trim_of(s: Seq<char>) -> Seq<char>;

/// Relies on str::trim: it removes leading and trailing whitespace, a
/// fixed function of the characters.
#[verifier::external_body]
fn trim_str<'a>(s: &'a str) -> (r: &'a str)
    ensures
        r@ == trim_of(s@),
{
    s.trim()
}

/// The reference prefix that names a shared parameter component.
pub open spec fn param_prefix() -> Seq<char> {
    "#/components/parameters/"@
}

/// Strips every repetition of the prefix `p` from the front of `s`.
pub open spec fn strip_repeat(s: Seq<char>, p: Seq<char>) -> Seq<char>
    decreases s.len(),
{
    if p.len() == 0 {
        s
    } else {
        match strip_prefix_s(s, p) {
            Some(r) => if r.len() < s.len() {
                strip_repeat(r, p)
            } else {
                s
            },
            None => s,
        }
    }
}

fn strip_repeat_exec(s: &str, p: &str) -> (r: String)
    requires
        p@.len() > 0,
    ensures
        r@ == strip_repeat(s@, p@),
{
    let mut cur: String = s.to_owned();
    loop
        invariant
            p@.len() > 0,
            strip_repeat(s@, p@) == strip_repeat(cur@, p@),
        ensures
            strip_repeat(s@, p@) == cur@,
        decreases cur@.len(),
    {
        let next: Option<String> = match crate::text::strip_prefix(cur.as_str(), p) {
            Some(rest) => Some(rest.to_owned()),
            None => None,
        };
        match next {
            Some(t) => {
                cur = t;
            },
            None => {
                break;
            },
        }
    }
    cur
}

/// The shared parameter components, keys and data as listed.
pub open spec fn comps_view(c: Option<Seq<(String, Option<ParameterInfo>)>>) -> Option<
    Seq<(Seq<char>, Option<ParameterInfo>)>,
> {
    match c {
        Some(v) => Some(kv_view(v)),
        None => None,
    }
}

/// The components as handed to `Operation::new`.
pub open spec fn comps_of(c: &Option<Vec<(String, Option<ParameterInfo>)>>) -> Option<
    Seq<(Seq<char>, Option<ParameterInfo>)>,
> {
    match *c {
        Some(v) => Some(kv_view(v@)),
        None => None,
    }
}

/// Why one parameter fails to resolve.
pub enum ParamErr {
    Missing,
    NotFound(Seq<char>),
    IsReference(Seq<char>),
}

/// How one parameter resolves: inline data as it stands; a reference by
/// stripping the component prefix and looking the rest up among the
/// components, failing when the components are absent, the name is not
/// bound, or the component is itself a reference.
pub open spec fn resolve_param(
    p: ParameterSource,
    comps: Option<Seq<(Seq<char>, Option<ParameterInfo>)>>,
) -> Result<ParameterInfo, ParamErr> {
    match p {
        ParameterSource::Item(info) => Ok(info),
        ParameterSource::Reference(r) => {
            let name = strip_repeat(r@, param_prefix());
            match comps {
                None => Err(ParamErr::Missing),
                Some(cs) => match map_get(cs, name) {
                    None => Err(ParamErr::NotFound(r@)),
                    Some(entry) => match entry {
                        Some(info) => Ok(info),
                        None => Err(ParamErr::IsReference(name)),
                    },
                },
            }
        },
    }
}

/// The failure of the first parameter that does not resolve, if any.
pub open spec fn first_param_err(
    ps: Seq<ParameterSource>,
    comps: Option<Seq<(Seq<char>, Option<ParameterInfo>)>>,
) -> Option<ParamErr>
    decreases ps.len(),
{
    if ps.len() == 0 {
        None
    } else {
        match resolve_param(ps[0], comps) {
            Err(e) => Some(e),
            Ok(_) => first_param_err(ps.drop_first(), comps),
        }
    }
}

proof fn lemma_first_param_err_at(
    ps: Seq<ParameterSource>,
    comps: Option<Seq<(Seq<char>, Option<ParameterInfo>)>>,
    i: int,
)
    requires
        0 <= i <= ps.len(),
        forall|t: int| 0 <= t < i ==> resolve_param(#[trigger] ps[t], comps) is Ok,
    ensures
        i < ps.len() && resolve_param(ps[i], comps) is Err ==> first_param_err(ps, comps) == Some(
            resolve_param(ps[i], comps)->Err_0,
        ),
        i == ps.len() ==> first_param_err(ps, comps) is None,
    decreases i,
{
    if i > 0 {
        assert(resolve_param(ps[0], comps) is Ok);
        let pd = ps.drop_first();
        assert(forall|t: int| 0 <= t < i - 1 ==> #[trigger] pd[t] == ps[t + 1]);
        lemma_first_param_err_at(pd, comps, i - 1);
        if i < ps.len() {
            assert(pd[i - 1] == ps[i]);
        }
    }
}

/// Whether a flag carries the trimmed data of a parameter.
pub open spec fn flag_matches(f: OperationFlag, info: ParameterInfo) -> bool {
    &&& f.name@ == trim_of(info.name@)
    &&& match (f.description, info.description) {
        (Some(a), Some(b)) => a@ == trim_of(b@),
        (None, None) => true,
        _ => false,
    }
}

impl Operation {
    /// Resolves one operation of the description: exactly one tag, a
    /// present identifier, a parsable path, and every parameter
    /// resolvable; the first violation is the error.
    #[verifier::loop_isolation(false)]
    pub fn new(
        spec_components: &Option<Vec<(String, Option<ParameterInfo>)>>,
        path: &str,
        verb: &str,
        operation: &OperationSource,
    ) -> (res: Result<Operation, OperationCreationError>)
        ensures
            ({
                let comps = comps_of(spec_components);
                let ps = operation.parameters@;
                match res {
                    Ok(o) => {
                        &&& operation.tags@.len() == 1
                        &&& operation.operation_id is Some
                        &&& path_parse(path@) is Some
                        &&& first_param_err(ps, comps) is None
                        &&& o.tag@ == trim_of(operation.tags@[0]@)
                        &&& o.operation_id@ == trim_of(operation.operation_id->0@)
                        &&& o.path@ == path_parse(path@)->Some_0
                        &&& o.verb@ == verb@
                        &&& match (o.description, operation.description) {
                            (Some(a), Some(b)) => a@ == b@,
                            (None, None) => true,
                            _ => false,
                        }
                        &&& o.flags@.len() == ps.len()
                        &&& forall|t: int|
                            0 <= t < ps.len() ==> resolve_param(#[trigger] ps[t], comps) is Ok
                                && flag_matches(o.flags@[t], resolve_param(ps[t], comps)->Ok_0)
                    },
                    Err(e) => match e {
                        OperationCreationError::UnexpectedNumberOfTags { got, path: p2, verb: v2 } => {
                            &&& operation.tags@.len() != 1
                            &&& got == operation.tags@.len()
                            &&& p2@ == path@
                            &&& v2@ == verb@
                        },
                        OperationCreationError::OperationIdMissing { path: p2, verb: v2 } => {
                            &&& operation.tags@.len() == 1
                            &&& operation.operation_id is None
                            &&& p2@ == path@
                            &&& v2@ == verb@
                        },
                        OperationCreationError::EmptyPath { operation_id } => {
                            &&& operation.tags@.len() == 1
                            &&& operation.operation_id is Some
                            &&& path_parse(path@) is None
                            &&& operation_id@ == trim_of(operation.operation_id->0@)
                        },
                        OperationCreationError::ComponentsAreMissing => {
                            &&& operation.tags@.len() == 1
                            &&& operation.operation_id is Some
                            &&& path_parse(path@) is Some
                            &&& first_param_err(ps, comps) == Some(ParamErr::Missing)
                        },
                        OperationCreationError::ParameterNotFound { parameter_name } => {
                            &&& operation.tags@.len() == 1
                            &&& operation.operation_id is Some
                            &&& path_parse(path@) is Some
                            &&& first_param_err(ps, comps) == Some(
                                ParamErr::NotFound(parameter_name@),
                            )
                        },
                        OperationCreationError::ParameterIsAReference { parameter_name } => {
                            &&& operation.tags@.len() == 1
                            &&& operation.operation_id is Some
                            &&& path_parse(path@) is Some
                            &&& first_param_err(ps, comps) == Some(
                                ParamErr::IsReference(parameter_name@),
                            )
                        },
                    },
                }
            }),
    {
        let ghost comps = comps_of(spec_components);
        let ghost ps = operation.parameters@;
        if operation.tags.len() != 1 {
            return Err(OperationCreationError::UnexpectedNumberOfTags {
                got: operation.tags.len(),
                path: path.to_owned(),
                verb: verb.to_owned(),
            });
        }
        let operation_id: String = match &operation.operation_id {
            Some(id) => trim_str(id.as_str()).to_owned(),
            None => {
                return Err(OperationCreationError::OperationIdMissing {
                    path: path.to_owned(),
                    verb: verb.to_owned(),
                });
            },
        };
        let tag = trim_str(operation.tags[0].as_str()).to_owned();
        let parsed = match Path::from_str_owned(path) {
            Some(p) => p,
            None => {
                return Err(OperationCreationError::EmptyPath { operation_id });
            },
        };
        let description = match &operation.description {
            Some(d) => Some(d.clone()),
            None => None,
        };
        let mut flags: Vec<OperationFlag> = Vec::new();
        let mut i: usize = 0;
        while i < operation.parameters.len()
            invariant
                0 <= i <= ps.len(),
                flags@.len() == i,
                forall|t: int|
                    0 <= t < i ==> resolve_param(#[trigger] ps[t], comps) is Ok && flag_matches(
                        flags@[t],
                        resolve_param(ps[t], comps)->Ok_0,
                    ),
            decreases ps.len() - i,
        {
            match &operation.parameters[i] {
                ParameterSource::Item(info) => {
                    let fdesc = match &info.description {
                        Some(d) => Some(trim_str(d.as_str()).to_owned()),
                        None => None,
                    };
                    flags.push(
                        OperationFlag { name: trim_str(info.name.as_str()).to_owned(), description: fdesc },
                    );
                },
                ParameterSource::Reference(r) => {
                    let prefix = "#/components/parameters/";
                    proof {
                        reveal_strlit("#/components/parameters/");
                    }
                    let name = strip_repeat_exec(r.as_str(), prefix);
                    match spec_components {
                        None => {
                            proof {
                                lemma_first_param_err_at(ps, comps, i as int);
                            }
                            return Err(OperationCreationError::ComponentsAreMissing);
                        },
                        Some(cs) => {
                            match kv_find(cs, name.as_str()) {
                                None => {
                                    proof {
                                        lemma_map_get_has(kv_view(cs@), name@);
                                        lemma_first_param_err_at(ps, comps, i as int);
                                    }
                                    return Err(OperationCreationError::ParameterNotFound {
                                        parameter_name: r.clone(),
                                    });
                                },
                                Some(j) => {
                                    proof {
                                        lemma_map_get_first(kv_view(cs@), name@, j as int);
                                        assert(kv_view(cs@)[j as int].1 == cs@[j as int].1);
                                    }
                                    match &cs[j].1 {
                                        Some(info) => {
                                            let fdesc = match &info.description {
                                                Some(d) => Some(trim_str(d.as_str()).to_owned()),
                                                None => None,
                                            };
                                            flags.push(
                                                OperationFlag {
                                                    name: trim_str(info.name.as_str()).to_owned(),
                                                    description: fdesc,
                                                },
                                            );
                                        },
                                        None => {
                                            proof {
                                                lemma_first_param_err_at(ps, comps, i as int);
                                            }
                                            return Err(
                                                OperationCreationError::ParameterIsAReference {
                                                    parameter_name: name,
                                                },
                                            );
                                        },
                                    }
                                },
                            }
                        },
                    }
                },
            }
            i = i + 1;
        }
        proof {
            lemma_first_param_err_at(ps, comps, ps.len() as int);
        }
        Ok(
            Operation {
                description,
                flags,
                operation_id,
                path: parsed,
                tag,
                verb: verb.to_owned(),
            },
        )
    }
}

} // verus!
