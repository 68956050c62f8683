//! Renders a call's arguments in keyword form for the rule that
//! reshapes call sites: each argument past any positional-only prefix
//! becomes a `name=value` binding, when the whole call can take that
//! form.

use vstd::prelude::*;

use crate::rule::str_eq;
use crate::text::push_str;

verus! {

/// One positional argument of a call: its source text, and whether it
/// is a `*` unpacking.
pub struct CallArg {
    pub text: String,
    pub starred: bool,
}

/// One keyword argument of a call. `name` is `None` for a `**`
/// unpacking; `text` is the argument's whole `name=value` source and
/// `value` the source of its value alone.
pub struct KeywordArgIn {
    pub name: Option<String>,
    pub text: String,
    pub value: String,
}

/// The signature a call binds: the names of its positional-only
/// parameters, then those of the parameters that take a name.
pub struct Params {
    pub posonly: Vec<String>,
    pub args: Vec<String>,
}

/// One argument rendered as a keyword binding: the bound name, the
/// `name=value` text, and the value's source.
pub struct KeywordArg {
    pub name: String,
    pub rendered: String,
    pub value: String,
}

/// Every nameable argument of a call in source order, flagged when a
/// leading positional-only argument keeps its slot.
pub struct CallKeywords {
    pub args: Vec<KeywordArg>,
    pub has_posonly_prefix: bool,
}

/// How many positional-only parameters the signature has (none when
/// the callee is not resolved).
pub open spec fn posonly_count(params: Option<&Params>) -> int {
    match params {
        Some(p) => p.posonly.len() as int,
        None => 0,
    }
}

/// The names of the parameters that take a name.
pub open spec fn named_params(params: Option<&Params>) -> Seq<String> {
    match params {
        Some(p) => p.args@,
        None => Seq::empty(),
    }
}

/// How many positional arguments lie past the positional-only prefix.
pub open spec fn renamed_count(npos: int, posonly: int) -> int {
    if npos > posonly {
        npos - posonly
    } else {
        0
    }
}

/// The names the keyword form binds, in source order: the parameter
/// names of the positional arguments past the prefix, then the keyword
/// names.
pub open spec fn bound_names(
    positional: Seq<CallArg>,
    keywords: Seq<KeywordArgIn>,
    params: Option<&Params>,
) -> Seq<Seq<char>> {
    let c = renamed_count(positional.len() as int, posonly_count(params));
    Seq::new(c as nat, |i: int| named_params(params)[i]@) + Seq::new(
        keywords.len(),
        |j: int| keywords[j].name.unwrap()@,
    )
}

/// No name occurs twice.
pub open spec fn all_distinct(names: Seq<Seq<char>>) -> bool {
    forall|i: int, j: int| 0 <= i < j < names.len() ==> #[trigger] names[i] != #[trigger] names[j]
}

/// The call cannot take keyword form: a `*` or `**` unpacking, a
/// positional argument with no resolved signature, more positional
/// arguments than the signature has places for, or a name bound twice.
pub open spec fn keyword_form_refused(
    positional: Seq<CallArg>,
    keywords: Seq<KeywordArgIn>,
    params: Option<&Params>,
) -> bool {
    ||| exists|i: int| 0 <= i < positional.len() && (#[trigger] positional[i]).starred
    ||| exists|j: int| 0 <= j < keywords.len() && (#[trigger] keywords[j]).name is None
    ||| positional.len() > 0 && params is None
    ||| positional.len() > posonly_count(params) + named_params(params).len()
    ||| !all_distinct(bound_names(positional, keywords, params))
}

/// The rendered arguments are those of the keyword form: each
/// positional argument past the prefix bound to its parameter's name,
/// then each keyword argument as written.
pub open spec fn renders_keyword_form(
    args: Seq<KeywordArg>,
    positional: Seq<CallArg>,
    keywords: Seq<KeywordArgIn>,
    params: Option<&Params>,
) -> bool {
    let p = posonly_count(params);
    let c = renamed_count(positional.len() as int, p);
    let named = named_params(params);
    &&& args.len() == c + keywords.len()
    &&& forall|i: int|
        0 <= i < c ==> {
            &&& (#[trigger] args[i]).name@ == named[i]@
            &&& args[i].rendered@ == named[i]@ + seq!['='] + positional[p + i].text@
            &&& args[i].value@ == positional[p + i].text@
        }
    &&& forall|j: int|
        0 <= j < keywords.len() ==> {
            &&& (#[trigger] args[c + j]).name@ == keywords[j].name.unwrap()@
            &&& args[c + j].rendered@ == keywords[j].text@
            &&& args[c + j].value@ == keywords[j].value@
        }
}

fn copy_string(s: &String) -> (r: String)
    ensures
        r@ == s@,
{
    s.clone()
}

/// True when no two rendered arguments bind the same name.
fn names_distinct(args: &Vec<KeywordArg>) -> (r: bool)
    ensures
        r == all_distinct(args@.map_values(|a: KeywordArg| a.name@)),
{
    let ghost names = args@.map_values(|a: KeywordArg| a.name@);
    let mut i: usize = 0;
    while i < args.len()
        invariant
            i <= args.len(),
            names == args@.map_values(|a: KeywordArg| a.name@),
            forall|a: int, b: int| 0 <= a < i && a < b < args.len() ==> #[trigger] names[a] != #[trigger] names[b],
        decreases args.len() - i,
    {
        let mut j: usize = i + 1;
        while j < args.len()
            invariant
                i < args.len(),
                i + 1 <= j <= args.len(),
                names == args@.map_values(|a: KeywordArg| a.name@),
                forall|a: int, b: int| 0 <= a < i && a < b < args.len() ==> #[trigger] names[a] != #[trigger] names[b],
                forall|b: int| i < b < j ==> names[i as int] != #[trigger] names[b],
            decreases args.len() - j,
        {
            if str_eq(args[i].name.as_str(), args[j].name.as_str()) {
                assert(names[i as int] == names[j as int]);
                return false;
            }
            j += 1;
        }
        i += 1;
    }
    true
}

/// Renders a call's arguments past any positional-only prefix as
/// keyword bindings, in source order. `params` is the signature the
/// callee resolves to, or `None` when the callee is outside the module.
/// `None` exactly when the call cannot take keyword form (see
/// [`keyword_form_refused`]); otherwise the rendered arguments, and
/// whether a positional-only prefix keeps its slots.
pub fn keyword_args(positional: &[CallArg], keywords: &[KeywordArgIn], params: Option<&Params>) -> (r:
    Option<CallKeywords>)
    ensures
        r is None <==> keyword_form_refused(positional@, keywords@, params),
        r matches Some(k) ==> {
            &&& renders_keyword_form(k.args@, positional@, keywords@, params)
            &&& k.has_posonly_prefix == (positional.len() > 0 && posonly_count(params) > 0)
        },
{
    let mut i: usize = 0;
    while i < positional.len()
        invariant
            i <= positional.len(),
            forall|a: int| 0 <= a < i ==> !(#[trigger] positional@[a]).starred,
        decreases positional.len() - i,
    {
        if positional[i].starred {
            return None;
        }
        i += 1;
    }
    let mut j: usize = 0;
    while j < keywords.len()
        invariant
            j <= keywords.len(),
            forall|a: int| 0 <= a < j ==> !((#[trigger] keywords@[a]).name is None),
        decreases keywords.len() - j,
    {
        if keywords[j].name.is_none() {
            return None;
        }
        j += 1;
    }
    let npos = positional.len();
    if npos > 0 && params.is_none() {
        return None;
    }
    let (posonly, named_len) = match params {
        Some(p) => (p.posonly.len(), p.args.len()),
        None => (0, 0),
    };
    if npos > posonly && npos - posonly > named_len {
        return None;
    }
    let ghost p = posonly as int;
    let ghost c = renamed_count(npos as int, p);
    let ghost named = named_params(params);
    let mut args: Vec<KeywordArg> = Vec::new();
    let mut k: usize = posonly;
    while k < npos
        invariant
            posonly == posonly_count(params),
            named == named_params(params),
            named_len == named.len(),
            p == posonly,
            c == renamed_count(npos as int, p),
            npos == positional.len(),
            npos > posonly ==> npos - posonly <= named_len,
            posonly <= k <= npos || (npos <= posonly && k == posonly),
            args.len() == k - posonly || (npos <= posonly && args.len() == 0),
            forall|a: int|
                0 <= a < args.len() ==> {
                    &&& (#[trigger] args@[a]).name@ == named[a]@
                    &&& args@[a].rendered@ == named[a]@ + seq!['='] + positional@[p + a].text@
                    &&& args@[a].value@ == positional@[p + a].text@
                },
        decreases npos - k,
    {
        let name: &String = match params {
            Some(q) => &q.args[k - posonly],
            None => {
                assert(false);
                return None;
            },
        };
        let mut rendered = String::new();
        push_str(&mut rendered, name.as_str());
        push_str(&mut rendered, "=");
        push_str(&mut rendered, positional[k].text.as_str());
        proof {
            reveal_strlit("=");
            assert(rendered@ =~= named[(k - posonly) as int]@ + seq!['='] + positional@[k as int].text@);
        }
        args.push(KeywordArg { name: copy_string(name), rendered, value: copy_string(&positional[k].text) });
        k += 1;
    }
    assert(args.len() == c);
    let mut m: usize = 0;
    while m < keywords.len()
        invariant
            m <= keywords.len(),
            args.len() == c + m,
            c == renamed_count(npos as int, p),
            p == posonly_count(params),
            named == named_params(params),
            npos == positional.len(),
            forall|a: int| 0 <= a < keywords.len() ==> !((#[trigger] keywords@[a]).name is None),
            forall|a: int|
                0 <= a < c ==> {
                    &&& (#[trigger] args@[a]).name@ == named[a]@
                    &&& args@[a].rendered@ == named[a]@ + seq!['='] + positional@[p + a].text@
                    &&& args@[a].value@ == positional@[p + a].text@
                },
            forall|b: int|
                0 <= b < m ==> {
                    &&& (#[trigger] args@[c + b]).name@ == keywords@[b].name.unwrap()@
                    &&& args@[c + b].rendered@ == keywords@[b].text@
                    &&& args@[c + b].value@ == keywords@[b].value@
                },
        decreases keywords.len() - m,
    {
        let kw = &keywords[m];
        let name = match &kw.name {
            Some(n) => copy_string(n),
            None => {
                return None;
            },
        };
        args.push(KeywordArg { name, rendered: copy_string(&kw.text), value: copy_string(&kw.value) });
        proof {
            assert(args@[c + m as int] == args@[args.len() - 1]);
        }
        m += 1;
    }
    proof {
        let names = args@.map_values(|a: KeywordArg| a.name@);
        let bound = bound_names(positional@, keywords@, params);
        assert(names.len() == bound.len());
        assert forall|x: int| 0 <= x < names.len() implies names[x] == bound[x] by {
            if x < c {
            } else {
                assert(args@[c + (x - c)] == args@[x]);
            }
        }
        assert(names =~= bound);
    }
    if names_distinct(&args) {
        Some(CallKeywords { args, has_posonly_prefix: npos > 0 && posonly > 0 })
    } else {
        None
    }
}

} // verus!
