//! The grammar-handle abstraction: a closed sum over statically known
//! grammars and grammars registered at runtime, exposing one capability
//! surface (parse, marker and expando characters, pattern
//! pre-processing, path resolution) so the matching and replacement
//! pipeline is agnostic to how a language came to be available.

use crate::meta_var::{is_valid_name, spec_extract_meta_var, MetaVarV};
use crate::replacer::{rewrite, spec_replace};
use crate::tree::{wf_marker, Root};
use vstd::prelude::*;

verus! {

/// Relies on String::push: appends exactly the one given character.
#[verifier::external_body]
fn push_char(s: &mut String, c: char)
    ensures
        final(s)@ == old(s)@.push(c),
{
    s.push(c);
}

/// Character-for-character equality of two string slices.
fn str_eq(a: &str, b: &str) -> (r: bool)
    ensures
        r == (a@ == b@),
{
    let na = a.unicode_len();
    let nb = b.unicode_len();
    if na != nb {
        return false;
    }
    let mut i: usize = 0;
    while i < na
        invariant
            i <= na == a@.len(),
            na == nb == b@.len(),
            forall|j: int| 0 <= j < i ==> a@[j] == b@[j],
        decreases na - i,
    {
        if a.get_char(i) != b.get_char(i) {
            return false;
        }
        i += 1;
    }
    proof {
        assert(a@ =~= b@);
    }
    true
}

/// A statically compiled grammar.
#[derive(Clone, Copy, Debug, PartialEq, Eq, Structural)]
pub enum SupportLang {
    JavaScript,
    TypeScript,
    Tsx,
    Dockerfile,
}

impl SupportLang {
    /// The name this grammar serializes to.
    pub open spec fn name_spec(self) -> Seq<char> {
        match self {
            SupportLang::JavaScript => "javascript"@,
            SupportLang::TypeScript => "typescript"@,
            SupportLang::Tsx => "tsx"@,
            SupportLang::Dockerfile => "dockerfile"@,
        }
    }

    pub open spec fn meta_var_char_spec(self) -> char {
        '$'
    }

    /// Grammars whose parser cannot take the marker inside an
    /// identifier override the expando character.
    pub open spec fn expando_char_spec(self) -> char {
        match self {
            SupportLang::Dockerfile => '\u{00B5}',
            _ => '$',
        }
    }

    pub fn name(&self) -> (r: String)
        ensures
            r@ == self.name_spec(),
    {
        match self {
            SupportLang::JavaScript => String::from_str("javascript"),
            SupportLang::TypeScript => String::from_str("typescript"),
            SupportLang::Tsx => String::from_str("tsx"),
            SupportLang::Dockerfile => String::from_str("dockerfile"),
        }
    }

    /// Builtin resolution by file extension.
    pub open spec fn spec_from_extension(ext: Seq<char>) -> Option<SupportLang> {
        if ext == "js"@ || ext == "mjs"@ || ext == "cjs"@ || ext == "jsx"@ {
            Some(SupportLang::JavaScript)
        } else if ext == "ts"@ {
            Some(SupportLang::TypeScript)
        } else if ext == "tsx"@ {
            Some(SupportLang::Tsx)
        } else if ext == "dockerfile"@ {
            Some(SupportLang::Dockerfile)
        } else {
            None
        }
    }

    pub fn from_extension(ext: &str) -> (r: Option<SupportLang>)
        ensures
            r == SupportLang::spec_from_extension(ext@),
    {
        if str_eq(ext, "js") || str_eq(ext, "mjs") || str_eq(ext, "cjs") || str_eq(ext, "jsx") {
            Some(SupportLang::JavaScript)
        } else if str_eq(ext, "ts") {
            Some(SupportLang::TypeScript)
        } else if str_eq(ext, "tsx") {
            Some(SupportLang::Tsx)
        } else if str_eq(ext, "dockerfile") {
            Some(SupportLang::Dockerfile)
        } else {
            None
        }
    }
}

/// A grammar registered at runtime: its declared name, the file
/// extensions it claims, and its marker and expando characters.
pub struct CustomLang {
    pub name: String,
    pub extensions: Vec<String>,
    pub meta_var_char: char,
    pub expando_char: char,
}

impl CustomLang {
    /// Both configured characters are usable as placeholder markers.
    pub open spec fn wf(self) -> bool {
        wf_marker(self.meta_var_char) && wf_marker(self.expando_char)
    }

    /// A descriptor with the default characters: the marker `$`, the
    /// expando equal to it.
    pub fn new(name: String, extensions: Vec<String>) -> (r: CustomLang)
        ensures
            r.wf(),
            r.name == name,
            r.extensions == extensions,
            r.meta_var_char == '$',
            r.expando_char == '$',
    {
        CustomLang { name, extensions, meta_var_char: '$', expando_char: '$' }
    }

    /// Whether this grammar claims the extension.
    pub open spec fn has_extension_spec(self, ext: Seq<char>) -> bool {
        exists|i: int| 0 <= i < self.extensions@.len() && (#[trigger] self.extensions@[i])@ == ext
    }

    pub fn has_extension(&self, ext: &str) -> (r: bool)
        ensures
            r == self.has_extension_spec(ext@),
    {
        let n = self.extensions.len();
        let mut i: usize = 0;
        while i < n
            invariant
                i <= n == self.extensions@.len(),
                forall|j: int| 0 <= j < i ==> (#[trigger] self.extensions@[j])@ != ext@,
            decreases n - i,
        {
            if str_eq(self.extensions[i].as_str(), ext) {
                return true;
            }
            i += 1;
        }
        false
    }

    /// Field-for-field agreement of two descriptors.
    pub open spec fn agrees_with(self, o: CustomLang) -> bool {
        &&& self.name == o.name
        &&& self.extensions@ == o.extensions@
        &&& self.meta_var_char == o.meta_var_char
        &&& self.expando_char == o.expando_char
    }

    /// An owned copy of this descriptor.
    pub fn duplicate(&self) -> (r: CustomLang)
        ensures
            r.agrees_with(*self),
    {
        let n = self.extensions.len();
        let mut exts: Vec<String> = Vec::new();
        let mut i: usize = 0;
        while i < n
            invariant
                i <= n == self.extensions@.len(),
                exts@.len() == i,
                forall|j: int| 0 <= j < i ==> #[trigger] exts@[j] == self.extensions@[j],
            decreases n - i,
    {
            exts.push(self.extensions[i].clone());
            i += 1;
        }
        proof {
            assert(exts@ =~= self.extensions@);
        }
        CustomLang {
            name: self.name.clone(),
            extensions: exts,
            meta_var_char: self.meta_var_char,
            expando_char: self.expando_char,
        }
    }
}

/// Why a runtime registration was refused.
#[derive(Clone, Copy, Debug, PartialEq, Eq, Structural)]
pub enum RegistryError {
    DuplicateName,
    UnusableMetaVarChar,
    UnusableExpandoChar,
}

/// The first registered grammar claiming `ext`, if any.
pub open spec fn spec_find_custom(langs: Seq<CustomLang>, ext: Seq<char>) -> Option<CustomLang>
    decreases langs.len(),
{
    if langs.len() == 0 {
        None
    } else if langs[0].has_extension_spec(ext) {
        Some(langs[0])
    } else {
        spec_find_custom(langs.skip(1), ext)
    }
}

proof fn lemma_find_custom_scan(langs: Seq<CustomLang>, ext: Seq<char>, i: int)
    requires
        0 <= i <= langs.len(),
        forall|j: int| 0 <= j < i ==> !(#[trigger] langs[j]).has_extension_spec(ext),
    ensures
        spec_find_custom(langs, ext) == spec_find_custom(langs.skip(i), ext),
    decreases i,
{
    if i == 0 {
        assert(langs.skip(0) =~= langs);
    } else {
        assert(!(#[trigger] langs[0]).has_extension_spec(ext));
        assert forall|j: int| 0 <= j < i - 1 implies !(#[trigger] langs.skip(1)[j]).has_extension_spec(
            ext,
        ) by {
            assert(langs.skip(1)[j] == langs[j + 1]);
            assert(!langs[j + 1].has_extension_spec(ext));
        }
        lemma_find_custom_scan(langs.skip(1), ext, i - 1);
        assert(langs.skip(1).skip(i - 1) =~= langs.skip(i));
    }
}

/// The process-wide registry of runtime-loaded grammars: built once at
/// startup, read-only afterwards.
pub struct LangRegistry {
    pub langs: Vec<CustomLang>,
}

impl LangRegistry {
    /// Every registered grammar is usable and names are unique.
    pub open spec fn wf(self) -> bool {
        &&& forall|i: int| 0 <= i < self.langs@.len() ==> (#[trigger] self.langs@[i]).wf()
        &&& forall|i: int, j: int|
            0 <= i < j < self.langs@.len() ==> (#[trigger] self.langs@[i]).name@
                != (#[trigger] self.langs@[j]).name@
    }

    pub fn new() -> (r: LangRegistry)
        ensures
            r.wf(),
            r.langs@.len() == 0,
    {
        LangRegistry { langs: Vec::new() }
    }

    /// Register one grammar. An unusable character or a name already
    /// taken is a registration-time error and leaves the registry
    /// unchanged; it never aborts anything already registered.
    pub fn register(&mut self, lang: CustomLang) -> (r: Result<(), RegistryError>)
        requires
            old(self).wf(),
        ensures
            final(self).wf(),
            r == Ok::<(), RegistryError>(()) <==> lang.wf() && !(exists|i: int|
                0 <= i < old(self).langs@.len() && (#[trigger] old(self).langs@[i]).name@
                    == lang.name@),
            r == Ok::<(), RegistryError>(()) ==> final(self).langs@ == old(self).langs@.push(lang),
            r is Err ==> final(self).langs@ == old(self).langs@,
            r == Err::<(), RegistryError>(RegistryError::UnusableMetaVarChar) <==> !wf_marker(
                lang.meta_var_char,
            ),
            r == Err::<(), RegistryError>(RegistryError::UnusableExpandoChar) <==> wf_marker(
                lang.meta_var_char,
            ) && !wf_marker(lang.expando_char),
            r == Err::<(), RegistryError>(RegistryError::DuplicateName) <==> lang.wf() && (exists|
                i: int,
            |
                0 <= i < old(self).langs@.len() && (#[trigger] old(self).langs@[i]).name@
                    == lang.name@),
    {
        if !crate::tree::marker_ok(lang.meta_var_char) {
            return Err(RegistryError::UnusableMetaVarChar);
        }
        if !crate::tree::marker_ok(lang.expando_char) {
            return Err(RegistryError::UnusableExpandoChar);
        }
        let n = self.langs.len();
        let mut i: usize = 0;
        while i < n
            invariant
                i <= n == self.langs@.len(),
                self.langs@ == old(self).langs@,
                old(self).wf(),
                wf_marker(lang.meta_var_char),
                wf_marker(lang.expando_char),
                forall|j: int| 0 <= j < i ==> (#[trigger] self.langs@[j]).name@ != lang.name@,
            decreases n - i,
        {
            if str_eq(self.langs[i].name.as_str(), lang.name.as_str()) {
                proof {
                    assert(self.langs@[i as int].name@ == lang.name@);
                }
                return Err(RegistryError::DuplicateName);
            }
            i += 1;
        }
        let ghost prev = self.langs@;
        self.langs.push(lang);
        proof {
            assert forall|a: int, b: int| 0 <= a < b < self.langs@.len() implies (
            #[trigger] self.langs@[a]).name@ != (#[trigger] self.langs@[b]).name@ by {
                if b < self.langs@.len() - 1 {
                    assert(self.langs@[a] == prev[a] && self.langs@[b] == prev[b]);
                } else {
                    assert(self.langs@[a] == prev[a]);
                }
            }
        }
        Ok(())
    }

    /// The first registered grammar claiming the extension.
    pub fn find_by_extension(&self, ext: &str) -> (r: Option<&CustomLang>)
        ensures
            match r {
                Some(c) => spec_find_custom(self.langs@, ext@) == Some(*c),
                None => spec_find_custom(self.langs@, ext@) is None,
            },
    {
        let n = self.langs.len();
        let mut i: usize = 0;
        while i < n
            invariant
                i <= n == self.langs@.len(),
                forall|j: int| 0 <= j < i ==> !(#[trigger] self.langs@[j]).has_extension_spec(
                    ext@,
                ),
            decreases n - i,
        {
            if self.langs[i].has_extension(ext) {
                proof {
                    lemma_find_custom_scan(self.langs@, ext@, i as int);
                    assert(self.langs@.skip(i as int)[0] == self.langs@[i as int]);
                }
                return Some(&self.langs[i]);
            }
            i += 1;
        }
        proof {
            lemma_find_custom_scan(self.langs@, ext@, n as int);
            assert(self.langs@.skip(n as int).len() == 0);
        }
        None
    }
}

/// Where the extension of the last path segment starts, scanning
/// backward from `i`: just past its last `.`, if one stands before any
/// `/`.
pub open spec fn ext_start(p: Seq<char>, i: int) -> Option<int>
    decreases i,
{
    if i <= 0 || i > p.len() {
        None
    } else if p[i - 1] == '.' {
        Some(i)
    } else if p[i - 1] == '/' {
        None
    } else {
        ext_start(p, i - 1)
    }
}

/// The path's extension, if its last segment has one.
pub open spec fn spec_ext_of(p: Seq<char>) -> Option<Seq<char>> {
    match ext_start(p, p.len() as int) {
        Some(i) => Some(p.skip(i)),
        None => None,
    }
}

/// The extension of `path`, as an owned string.
pub fn extension_of(path: &str) -> (r: Option<String>)
    ensures
        match r {
            Some(s) => spec_ext_of(path@) == Some(s@),
            None => spec_ext_of(path@) is None,
        },
{
    let n = path.unicode_len();
    let mut i: usize = n;
    while i > 0
        invariant
            i <= n == path@.len(),
            ext_start(path@, n as int) == ext_start(path@, i as int),
        decreases i,
    {
        let c = path.get_char(i - 1);
        if c == '.' {
            let sub = path.substring_char(i, n);
            proof {
                assert(sub@ =~= path@.skip(i as int));
            }
            return Some(String::from_str(sub));
        }
        if c == '/' {
            return None;
        }
        i -= 1;
    }
    None
}

/// Before a pattern or template is handed to the parser, every marker
/// character is rewritten to the expando character, so placeholders
/// parse as legal identifiers.
pub open spec fn spec_preprocess(q: Seq<char>, m: char, e: char) -> Seq<char> {
    q.map(|i: int, c: char| if c == m {
        e
    } else {
        c
    })
}

/// The grammar handle: a closed sum over statically known and
/// runtime-registered grammars, with one capability surface. It holds
/// no state beyond the chosen variant.
pub enum SgLang {
    Builtin(SupportLang),
    Custom(CustomLang),
}

impl SupportLang {
    pub fn meta_var_char(&self) -> (r: char)
        ensures
            r == self.meta_var_char_spec(),
    {
        '$'
    }

    pub fn expando_char(&self) -> (r: char)
        ensures
            r == self.expando_char_spec(),
    {
        match self {
            SupportLang::Dockerfile => '\u{00B5}',
            _ => '$',
        }
    }
}

/// A builtin grammar's characters are always usable.
pub proof fn lemma_builtin_chars(b: SupportLang)
    ensures
        wf_marker(b.meta_var_char_spec()),
        wf_marker(b.expando_char_spec()),
{
}

impl SgLang {
    pub open spec fn wf(self) -> bool {
        match self {
            SgLang::Builtin(b) => true,
            SgLang::Custom(c) => c.wf(),
        }
    }

    /// The marker character, as the active variant configures it.
    pub open spec fn meta_var_char_spec(self) -> char {
        match self {
            SgLang::Builtin(b) => b.meta_var_char_spec(),
            SgLang::Custom(c) => c.meta_var_char,
        }
    }

    /// The expando character, as the active variant configures it.
    pub open spec fn expando_char_spec(self) -> char {
        match self {
            SgLang::Builtin(b) => b.expando_char_spec(),
            SgLang::Custom(c) => c.expando_char,
        }
    }

    /// The name this handle serializes to: exactly its active
    /// variant's own, with no wrapper artifact.
    pub open spec fn name_spec(self) -> Seq<char> {
        match self {
            SgLang::Builtin(b) => b.name_spec(),
            SgLang::Custom(c) => c.name@,
        }
    }

    pub fn meta_var_char(&self) -> (r: char)
        ensures
            r == self.meta_var_char_spec(),
    {
        match self {
            SgLang::Builtin(b) => b.meta_var_char(),
            SgLang::Custom(c) => c.meta_var_char,
        }
    }

    pub fn expando_char(&self) -> (r: char)
        ensures
            r == self.expando_char_spec(),
    {
        match self {
            SgLang::Builtin(b) => b.expando_char(),
            SgLang::Custom(c) => c.expando_char,
        }
    }

    /// The serialized form of this handle.
    pub fn name(&self) -> (r: String)
        ensures
            r@ == self.name_spec(),
    {
        match self {
            SgLang::Builtin(b) => b.name(),
            SgLang::Custom(c) => c.name.clone(),
        }
    }

    /// Parse a template with this grammar's characters.
    pub fn parse(&self, source: &str) -> (r: Root)
        requires
            self.wf(),
        ensures
            r.wf(),
            r.source@ == source@,
            r.marker == self.meta_var_char_spec(),
            r.expando == self.expando_char_spec(),
    {
        proof {
            if self is Builtin {
                lemma_builtin_chars(self->Builtin_0);
            }
        }
        Root::new_with(source, self.meta_var_char(), self.expando_char())
    }

    /// Rewrite the pattern text so its placeholders parse as legal
    /// identifiers under this grammar.
    pub fn pre_process_pattern(&self, query: &str) -> (r: String)
        requires
            self.wf(),
        ensures
            r@ == spec_preprocess(query@, self.meta_var_char_spec(), self.expando_char_spec()),
    {
        let m = self.meta_var_char();
        let e = self.expando_char();
        let n = query.unicode_len();
        let mut out = String::new();
        let mut i: usize = 0;
        while i < n
            invariant
                i <= n == query@.len(),
                out@.len() == i,
                forall|j: int|
                    0 <= j < i ==> out@[j] == (if query@[j] == m {
                        e
                    } else {
                        query@[j]
                    }),
            decreases n - i,
        {
            let c = query.get_char(i);
            if c == m {
                push_char(&mut out, e);
            } else {
                push_char(&mut out, c);
            }
            i += 1;
        }
        proof {
            assert forall|j: int| 0 <= j < n implies out@[j] == spec_preprocess(query@, m, e)[j]
                by {}
            assert(out@ =~= spec_preprocess(query@, m, e));
        }
        out
    }

    /// Try builtin resolution by extension first, then the registry;
    /// the first success wins, and `None` means no grammar claims the
    /// path.
    pub fn resolve_for_path(path: &str, registry: &LangRegistry) -> (r: Option<SgLang>)
        ensures
            match spec_ext_of(path@) {
                None => r is None,
                Some(ext) => match SupportLang::spec_from_extension(ext) {
                    Some(b) => r == Some(SgLang::Builtin(b)),
                    None => match spec_find_custom(registry.langs@, ext) {
                        Some(c) => r matches Some(l) && l matches SgLang::Custom(c2)
                            && c2.agrees_with(c),
                        None => r is None,
                    },
                },
            },
    {
        let ext = match extension_of(path) {
            Some(e) => e,
            None => {
                return None;
            },
        };
        match SupportLang::from_extension(ext.as_str()) {
            Some(b) => Some(SgLang::Builtin(b)),
            None => match registry.find_by_extension(ext.as_str()) {
                Some(c) => Some(SgLang::Custom(c.duplicate())),
                None => None,
            },
        }
    }
}

/// Replacement through a grammar handle: pre-process the template,
/// parse it with the grammar's characters, and rewrite it against the
/// environment.
pub fn generate_replacement_with(
    lang: &SgLang,
    template: &str,
    env: &crate::env::MetaVarEnv,
) -> (r: String)
    requires
        lang.wf(),
        env.wf(),
    ensures
        r@ == spec_replace(
            spec_preprocess(template@, lang.meta_var_char_spec(), lang.expando_char_spec()),
            lang.meta_var_char_spec(),
            lang.expando_char_spec(),
            env.view_env(),
        ),
{
    let pre = lang.pre_process_pattern(template);
    let root = lang.parse(pre.as_str());
    rewrite(&root, env)
}

/// Grammar handle equivalence: a builtin handle that keeps the default
/// expando and a custom handle registered with the defaults expose the
/// same marker and expando characters.
pub proof fn lemma_default_char_equivalence(b: SupportLang, c: CustomLang)
    requires
        c.meta_var_char == '$',
        c.expando_char == '$',
        b.expando_char_spec() == b.meta_var_char_spec(),
    ensures
        SgLang::Builtin(b).meta_var_char_spec() == SgLang::Custom(c).meta_var_char_spec(),
        SgLang::Builtin(b).expando_char_spec() == SgLang::Custom(c).expando_char_spec(),
{
}

/// Serialization transparency: a handle serializes to exactly the
/// representation its active variant alone would serialize to.
pub proof fn lemma_serialization_transparent(l: SgLang)
    ensures
        l matches SgLang::Builtin(b) ==> l.name_spec() == b.name_spec(),
        l matches SgLang::Custom(c) ==> l.name_spec() == c.name@,
{
}

/// The two-phase marker/expando mapping round-trips exactly: a
/// placeholder written with the marker, once pre-processed, is
/// recognized under the expando with the same logical name, for every
/// usable marker/expando pair.
pub proof fn lemma_preprocess_round_trip(name: Seq<char>, m: char, e: char)
    requires
        wf_marker(m),
        wf_marker(e),
        is_valid_name(name),
    ensures
        spec_extract_meta_var(spec_preprocess(seq![m] + name, m, e), e) == Some(
            MetaVarV::Single(name),
        ),
        spec_extract_meta_var(spec_preprocess(seq![m, m, m] + name, m, e), e) == Some(
            MetaVarV::Multi(name),
        ),
{
    let s1 = spec_preprocess(seq![m] + name, m, e);
    assert forall|j: int| 0 <= j < s1.len() implies s1[j] == (seq![e] + name)[j] by {
        if j > 0 {
            assert((seq![m] + name)[j] == name[j - 1]);
            assert(crate::meta_var::is_name_char(name[j - 1]));
        }
    }
    assert(s1 =~= seq![e] + name);
    assert(s1.len() >= 2 && s1[0] == e);
    if s1.len() >= 4 {
        assert(s1[1] == name[0]);
        assert(crate::meta_var::is_name_char(name[0]));
        assert(s1[1] != e);
    }
    assert(s1.skip(1) =~= name);
    let s3 = spec_preprocess(seq![m, m, m] + name, m, e);
    assert forall|j: int| 0 <= j < s3.len() implies s3[j] == (seq![e, e, e] + name)[j] by {
        if j > 2 {
            assert((seq![m, m, m] + name)[j] == name[j - 3]);
            assert(crate::meta_var::is_name_char(name[j - 3]));
        }
    }
    assert(s3 =~= seq![e, e, e] + name);
    assert(s3.len() >= 4 && s3[0] == e && s3[1] == e && s3[2] == e);
    assert(s3.skip(3) =~= name);
}

} // verus!
