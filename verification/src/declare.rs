//! Shell variables: a table from names to values, and the rule for names.

use vstd::hash_map::StringHashMap;
use vstd::prelude::*;

use crate::text::{ascii_alnum, ascii_alpha, is_ascii_alnum, is_ascii_alpha, str_chars};

verus! {

/// The shell's variables, each name bound to one value.
pub struct Variables {
    table: StringHashMap<String>,
}

impl View for Variables {
    type V = Map<Seq<char>, Seq<char>>;

    closed spec fn view(&self) -> Map<Seq<char>, Seq<char>> {
        self.table@.map_values(|v: String| v@)
    }
}

/// The variables as the shell starts: none is set.
pub fn variables() -> (vars: Variables)
    ensures
        vars@ == Map::<Seq<char>, Seq<char>>::empty(),
{
    let vars = Variables { table: StringHashMap::new() };
    assert(vars@ =~= Map::<Seq<char>, Seq<char>>::empty());
    vars
}

/// Binds `key` to `val`, replacing any earlier value of `key`.
pub fn set_var(vars: &mut Variables, key: String, val: String)
    ensures
        final(vars)@ == old(vars)@.insert(key@, val@),
{
    let ghost k = key@;
    let ghost v = val@;
    vars.table.insert(key, val);
    assert(vars@ =~= old(vars)@.insert(k, v));
}

/// The value bound to `key` in a table, if any.
pub open spec fn lookup(vars: Map<Seq<char>, Seq<char>>, key: Seq<char>) -> Option<Seq<char>> {
    if vars.contains_key(key) {
        Some(vars[key])
    } else {
        None
    }
}

/// The view of an optional string.
pub open spec fn opt_view(r: Option<String>) -> Option<Seq<char>> {
    match r {
        Some(v) => Some(v@),
        None => None,
    }
}

/// The value bound to `key`, if any.
pub fn get_var(vars: &Variables, key: &str) -> (r: Option<String>)
    ensures
        opt_view(r) == lookup(vars@, key@),
        match r {
            Some(v) => vars@.contains_key(key@) && v@ == vars@[key@],
            None => !vars@.contains_key(key@),
        },
{
    match vars.table.get(key) {
        Some(v) => Some(v.clone()),
        None => None,
    }
}

/// Whether `name` can name a variable: an ASCII letter or `_`, then ASCII
/// letters, digits and `_`.
pub open spec fn valid_identifier(name: Seq<char>) -> bool {
    &&& name.len() > 0
    &&& (is_ascii_alpha(name[0]) || name[0] == '_')
    &&& forall|i: int| 1 <= i < name.len() ==> is_ascii_alnum(#[trigger] name[i]) || name[i] == '_'
}

/// Whether `name` can name a variable.
pub fn is_valid_identifier(name: &str) -> (b: bool)
    ensures
        b == valid_identifier(name@),
{
    let cs = str_chars(name);
    if cs.len() == 0 {
        return false;
    }
    if !(ascii_alpha(cs[0]) || cs[0] == '_') {
        return false;
    }
    let mut i: usize = 1;
    while i < cs.len()
        invariant
            1 <= i <= cs.len(),
            cs@ == name@,
            forall|j: int| 1 <= j < i ==> is_ascii_alnum(#[trigger] cs@[j]) || cs@[j] == '_',
        decreases cs.len() - i,
    {
        if !(ascii_alnum(cs[i]) || cs[i] == '_') {
            return false;
        }
        i = i + 1;
    }
    true
}


/// Reading a variable gives what was last set: after `set_var(K, V)`,
/// `get_var(K)` gives V, and `get_var` of any other name gives what it gave
/// before.
pub proof fn law_get_after_set(
    vars: Map<Seq<char>, Seq<char>>,
    key: Seq<char>,
    val: Seq<char>,
    other: Seq<char>,
)
    requires
        other != key,
    ensures
        lookup(vars.insert(key, val), key) == Some(val),
        lookup(vars.insert(key, val), other) == lookup(vars, other),
{
}

/// A variable that was never set reads as unset: in the table the shell
/// starts with, `get_var` of any name gives nothing.
pub proof fn law_fresh_table_is_empty(key: Seq<char>)
    ensures
        lookup(Map::<Seq<char>, Seq<char>>::empty(), key) is None,
{
}

} // verus!
