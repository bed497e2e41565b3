use object::{Object, ObjectSymbol};
use vstd::prelude::*;
use vstd::string::StringExecFns;

verus! {

/// A symbol of an object file: its name (`None` when the name is not
/// UTF-8) and its address.
pub type Symbol = (Option<String>, u64);

/// The symbols that the `object` crate reads from the object file `data`,
/// in the order of its symbol table; `None` when it cannot parse `data`.
pub uninterp spec fn object_symbols(data: Seq<u8>) -> Option<Seq<(Option<Seq<char>>, u64)>>;

/// Trusted: parses `data` with `object::File::parse` and lists
/// `Object::symbols`, each by `ObjectSymbol::name` (kept as `None` when that
/// fails) and `ObjectSymbol::address`; `None` when the parse fails. The
/// contract claims only that the result, taken by its deep view, is a
/// function of `data`, named `object_symbols`.
#[verifier::external_body]
fn parse_symbols(data: &[u8]) -> (res: Option<Vec<Symbol>>)
    ensures
        res.deep_view() == object_symbols(data@),
{
    let obj = match object::File::parse(data) {
        Ok(obj) => obj,
        Err(_) => return None,
    };
    let mut out: Vec<Symbol> = Vec::new();
    for s in obj.symbols() {
        let name = match s.name() {
            Ok(n) => Some(n.to_string()),
            Err(_) => None,
        };
        out.push((name, s.address()));
    }
    Some(out)
}

/// `n` is the symbol name of `name`: the name itself, or the name with the
/// leading underscore that Mach-O gives C symbols.
pub open spec fn name_matches(n: Seq<char>, name: Seq<char>) -> bool {
    n == seq!['_'] + name || n == name
}

/// A symbol that takes part: it has a name and a non-zero address.
pub open spec fn is_live(s: (Option<Seq<char>>, u64)) -> bool {
    s.0 is Some && (s.1 as usize) != 0
}

pub open spec fn addr(s: (Option<Seq<char>>, u64)) -> usize {
    s.1 as usize
}

/// Some live symbol is named `name`.
pub open spec fn name_found(syms: Seq<(Option<Seq<char>>, u64)>, name: Seq<char>) -> bool {
    exists|i: int|
        0 <= i < syms.len() && is_live(#[trigger] syms[i]) && name_matches(syms[i].0.unwrap(), name)
}

/// `a` is the lowest address of a live symbol named `name`.
pub open spec fn is_start(syms: Seq<(Option<Seq<char>>, u64)>, name: Seq<char>, a: usize) -> bool {
    &&& exists|i: int|
        0 <= i < syms.len() && is_live(#[trigger] syms[i]) && name_matches(syms[i].0.unwrap(), name)
            && addr(syms[i]) == a
    &&& forall|i: int|
        0 <= i < syms.len() && is_live(#[trigger] syms[i]) && name_matches(syms[i].0.unwrap(), name)
            ==> a <= addr(syms[i])
}

/// `e` is the lowest live address above `a`, or `a` when there is none.
pub open spec fn is_end(syms: Seq<(Option<Seq<char>>, u64)>, a: usize, e: usize) -> bool {
    ||| {
        &&& a < e
        &&& exists|i: int| 0 <= i < syms.len() && is_live(#[trigger] syms[i]) && addr(syms[i]) == e
        &&& forall|i: int|
            0 <= i < syms.len() && is_live(#[trigger] syms[i]) && a < addr(syms[i]) ==> e <= addr(
                syms[i],
            )
    }
    ||| {
        &&& e == a
        &&& forall|i: int| 0 <= i < syms.len() && is_live(#[trigger] syms[i]) ==> addr(syms[i]) <= a
    }
}

/// The lowest address of a live symbol named `name`, if any.
fn start_of(syms: &Vec<Symbol>, name: &str) -> (res: Option<usize>)
    ensures
        res matches Some(a) ==> is_start(syms.deep_view(), name@, a),
        res is None ==> !name_found(syms.deep_view(), name@),
{
    let ghost sv = syms.deep_view();
    let mut mangled = String::from_str("_");
    mangled.append(name);
    proof {
        reveal_strlit("_");
    }
    assert(mangled@ =~= seq!['_'] + name@);
    let plain = String::from_str(name);
    let mut best: Option<usize> = None;
    let mut i: usize = 0;
    while i < syms.len()
        invariant
            i <= syms@.len(),
            sv == syms.deep_view(),
            sv.len() == syms@.len(),
            mangled@ == seq!['_'] + name@,
            plain@ == name@,
            best matches Some(a) ==> {
                &&& exists|j: int|
                    0 <= j < i && is_live(#[trigger] sv[j]) && name_matches(sv[j].0.unwrap(), name@)
                        && addr(sv[j]) == a
                &&& forall|j: int|
                    0 <= j < i && is_live(#[trigger] sv[j]) && name_matches(sv[j].0.unwrap(), name@)
                        ==> a <= addr(sv[j])
            },
            best is None ==> forall|j: int|
                0 <= j < i ==> !(is_live(#[trigger] sv[j]) && name_matches(sv[j].0.unwrap(), name@)),
        decreases syms@.len() - i,
    {
        assert(sv[i as int] == syms@[i as int].deep_view());
        let a = syms[i].1 as usize;
        match &syms[i].0 {
            Some(n) => {
                if a != 0 && (*n == mangled || *n == plain) {
                    match best {
                        Some(b) => {
                            if a < b {
                                best = Some(a);
                            }
                        },
                        None => {
                            best = Some(a);
                        },
                    }
                }
            },
            None => {},
        }
        i += 1;
    }
    best
}

/// The lowest live address above `a`, or `a` when there is none.
fn end_of(syms: &Vec<Symbol>, a: usize) -> (e: usize)
    ensures
        is_end(syms.deep_view(), a, e),
{
    let ghost sv = syms.deep_view();
    let mut best: Option<usize> = None;
    let mut i: usize = 0;
    while i < syms.len()
        invariant
            i <= syms@.len(),
            sv == syms.deep_view(),
            sv.len() == syms@.len(),
            best matches Some(e) ==> {
                &&& a < e
                &&& exists|j: int| 0 <= j < i && is_live(#[trigger] sv[j]) && addr(sv[j]) == e
                &&& forall|j: int|
                    0 <= j < i && is_live(#[trigger] sv[j]) && a < addr(sv[j]) ==> e <= addr(sv[j])
            },
            best is None ==> forall|j: int|
                0 <= j < i && is_live(#[trigger] sv[j]) ==> addr(sv[j]) <= a,
        decreases syms@.len() - i,
    {
        assert(sv[i as int] == syms@[i as int].deep_view());
        let x = syms[i].1 as usize;
        if syms[i].0.is_some() && x != 0 && x > a {
            match best {
                Some(b) => {
                    if x < b {
                        best = Some(x);
                    }
                },
                None => {
                    best = Some(x);
                },
            }
        }
        i += 1;
    }
    match best {
        Some(e) => e,
        None => a,
    }
}

/// For each of `names`, the address of its symbol and the distance to the
/// next higher symbol address (the object file records no sizes); `None`
/// where a name has no live symbol.
pub fn bounds_from_symbols(syms: &Vec<Symbol>, names: &[&str]) -> (res: Option<Vec<(usize, usize)>>)
    ensures
        res is Some <==> forall|k: int|
            0 <= k < names@.len() ==> name_found(syms.deep_view(), #[trigger] names@[k]@),
        res matches Some(b) ==> {
            &&& b@.len() == names@.len()
            &&& forall|k: int|
                0 <= k < names@.len() ==> is_start(syms.deep_view(), names@[k]@, #[trigger] b@[k].0)
                    && is_end(syms.deep_view(), b@[k].0, (b@[k].0 + b@[k].1) as usize)
        },
{
    let mut out: Vec<(usize, usize)> = Vec::new();
    let mut k: usize = 0;
    while k < names.len()
        invariant
            k <= names@.len(),
            out@.len() == k,
            forall|j: int| 0 <= j < k ==> name_found(syms.deep_view(), #[trigger] names@[j]@),
            forall|j: int|
                0 <= j < k ==> is_start(syms.deep_view(), names@[j]@, #[trigger] out@[j].0) && is_end(
                    syms.deep_view(),
                    out@[j].0,
                    (out@[j].0 + out@[j].1) as usize,
                ),
        decreases names@.len() - k,
    {
        match start_of(syms, names[k]) {
            Some(a) => {
                let e = end_of(syms, a);
                out.push((a, e - a));
            },
            None => {
                return None;
            },
        }
        k += 1;
    }
    Some(out)
}

/// For each of `names`, the address of its symbol in the object file `data`
/// and the distance to the next higher symbol address; `None` when `data`
/// cannot be parsed or a name has no symbol.
pub fn symbol_bounds(data: &[u8], names: &[&str]) -> (res: Option<Vec<(usize, usize)>>)
    ensures
        match object_symbols(data@) {
            None => res is None,
            Some(syms) => {
                &&& res is Some <==> forall|k: int|
                    0 <= k < names@.len() ==> name_found(syms, #[trigger] names@[k]@)
                &&& res matches Some(b) ==> {
                    &&& b@.len() == names@.len()
                    &&& forall|k: int|
                        0 <= k < names@.len() ==> is_start(syms, names@[k]@, #[trigger] b@[k].0)
                            && is_end(syms, b@[k].0, (b@[k].0 + b@[k].1) as usize)
                }
            },
        },
{
    match parse_symbols(data) {
        Some(syms) => bounds_from_symbols(&syms, names),
        None => None,
    }
}

} // verus!
