//! Meta-variable syntax: recognizing, in a leaf token's text, a
//! single-capture placeholder (`$NAME`) or a multi-capture (ellipsis)
//! placeholder (`$$$NAME`), and extracting its logical name.

use vstd::prelude::*;

verus! {

/// A character that may appear in a placeholder's logical name:
/// a letter, a digit, or an underscore.
pub open spec fn is_name_char(c: char) -> bool {
    (('a' as u32) <= (c as u32) && (c as u32) <= ('z' as u32)) || (('A' as u32) <= (c as u32)
        && (c as u32) <= ('Z' as u32)) || (('0' as u32) <= (c as u32) && (c as u32) <= ('9'
        as u32)) || c == '_'
}

/// A well-formed logical name: nonempty, made of name characters only.
pub open spec fn is_valid_name(s: Seq<char>) -> bool {
    s.len() > 0 && (forall|i: int| 0 <= i < s.len() ==> is_name_char(s[i]))
}

/// Mathematical view of a recognized placeholder: its kind and logical name.
pub ghost enum MetaVarV {
    Single(Seq<char>),
    Multi(Seq<char>),
}

impl MetaVarV {
    pub open spec fn name(self) -> Seq<char> {
        match self {
            MetaVarV::Single(n) => n,
            MetaVarV::Multi(n) => n,
        }
    }
}

/// What a leaf's literal text denotes when the placeholder-introducing
/// character is `e`: three consecutive markers followed by a name is a
/// multi capture, one marker followed by a name is a single capture,
/// and anything else is ordinary code.
pub open spec fn spec_extract_meta_var(s: Seq<char>, e: char) -> Option<MetaVarV> {
    if s.len() >= 4 && s[0] == e && s[1] == e && s[2] == e && is_valid_name(s.skip(3)) {
        Some(MetaVarV::Multi(s.skip(3)))
    } else if s.len() >= 2 && s[0] == e && is_valid_name(s.skip(1)) {
        Some(MetaVarV::Single(s.skip(1)))
    } else {
        None
    }
}

/// A recognized placeholder, carrying its logical name.
pub enum MetaVariable {
    Single(String),
    Multi(String),
}

impl MetaVariable {
    pub open spec fn view_mv(&self) -> MetaVarV {
        match self {
            MetaVariable::Single(n) => MetaVarV::Single(n@),
            MetaVariable::Multi(n) => MetaVarV::Multi(n@),
        }
    }

    /// The logical name, without markers.
    pub fn name(&self) -> (r: &String)
        ensures
            r@ == self.view_mv().name(),
    {
        match self {
            MetaVariable::Single(n) => n,
            MetaVariable::Multi(n) => n,
        }
    }
}

pub open spec fn opt_meta_var_view(r: Option<MetaVariable>) -> Option<MetaVarV> {
    match r {
        Some(mv) => Some(mv.view_mv()),
        None => None,
    }
}

/// Whether `c` may appear in a logical name.
pub fn name_char(c: char) -> (b: bool)
    ensures
        b == is_name_char(c),
{
    let u = c as u32;
    (('a' as u32) <= u && u <= ('z' as u32)) || (('A' as u32) <= u && u <= ('Z' as u32)) || (('0'
        as u32) <= u && u <= ('9' as u32)) || c == '_'
}

/// If every character of `src` from `from` on is a name character and at
/// least one is there, hand that suffix back as an owned name.
fn name_suffix(src: &str, from: usize, n: usize) -> (r: Option<String>)
    requires
        n == src@.len(),
        from <= n,
    ensures
        match r {
            Some(s) => is_valid_name(src@.skip(from as int)) && s@ == src@.skip(from as int),
            None => !is_valid_name(src@.skip(from as int)),
        },
{
    if from == n {
        return None;
    }
    let mut i = from;
    while i < n
        invariant
            from <= i <= n,
            n == src@.len(),
            forall|k: int| from <= k < i ==> is_name_char(src@[k]),
        decreases n - i,
    {
        if !name_char(src.get_char(i)) {
            assert(!is_name_char(src@.skip(from as int)[i - from]));
            return None;
        }
        i += 1;
    }
    assert(forall|k: int|
        0 <= k < src@.skip(from as int).len() ==> is_name_char(src@.skip(from as int)[k]));
    let sub = src.substring_char(from, n);
    assert(sub@ =~= src@.skip(from as int));
    Some(String::from_str(sub))
}

/// Recognize a placeholder in a leaf's text with `expando` as the
/// placeholder-introducing character.
pub fn extract_meta_var_in(src: &str, expando: char) -> (r: Option<MetaVariable>)
    ensures
        opt_meta_var_view(r) == spec_extract_meta_var(src@, expando),
{
    let n = src.unicode_len();
    if n >= 4 && src.get_char(0) == expando && src.get_char(1) == expando && src.get_char(2)
        == expando {
        if let Some(name) = name_suffix(src, 3, n) {
            return Some(MetaVariable::Multi(name));
        }
    }
    if n >= 2 && src.get_char(0) == expando {
        if let Some(name) = name_suffix(src, 1, n) {
            return Some(MetaVariable::Single(name));
        }
    }
    None
}

/// Recognize a placeholder under the default marker character `$`.
pub fn extract_meta_var(src: &str) -> (r: Option<MetaVariable>)
    ensures
        opt_meta_var_view(r) == spec_extract_meta_var(src@, '$'),
{
    extract_meta_var_in(src, '$')
}

} // verus!
