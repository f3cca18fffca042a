//! Stable identity of a module's origin: a real path or a virtual id
//! beginning with a NUL sentinel. Stable for the lifetime of a build,
//! usable as a map key, and stabilized to a cwd-relative string for
//! user-facing diagnostics.

use vstd::prelude::*;

verus! {

/// Escapes every NUL character of a virtual module id as the two
/// characters `\0`, leaving all other characters unchanged.
pub open spec fn escape_nul(s: Seq<char>) -> Seq<char>
    decreases s.len(),
{
    if s.len() == 0 {
        Seq::empty()
    } else {
        escape_nul(s.drop_last()) + (if s.last() == '\u{0}' {
            seq!['\\', '0']
        } else {
            seq![s.last()]
        })
    }
}

/// An id is treated as an absolute path when it begins with `/`.
pub open spec fn is_absolute_path(s: Seq<char>) -> bool {
    s.len() > 0 && s[0] == '/'
}

/// True when `s` lies below the directory `cwd` (taken without a
/// trailing separator): `s` starts with `cwd` followed by `/`.
pub open spec fn strips_cwd(s: Seq<char>, cwd: Seq<char>) -> bool {
    &&& s.len() > cwd.len() + 1
    &&& s.subrange(0, cwd.len() as int) == cwd
    &&& s[cwd.len() as int] == '/'
}

/// The diagnostic form of a resource id relative to `cwd`:
/// virtual ids (containing NUL) keep their text, with a leading-NUL id
/// fully escaped; absolute paths below `cwd` are made relative;
/// everything else is returned unchanged.
pub open spec fn stabilized(id: Seq<char>, cwd: Seq<char>) -> Seq<char> {
    if id.contains('\u{0}') {
        if id[0] == '\u{0}' {
            escape_nul(id)
        } else {
            id
        }
    } else if is_absolute_path(id) {
        if strips_cwd(id, cwd) {
            id.subrange(cwd.len() as int + 1, id.len() as int)
        } else {
            id
        }
    } else {
        id
    }
}

/// A character that may stand in a generated identifier:
/// ASCII letters, digits, `_` and `$`.
pub open spec fn is_ident_char(c: char) -> bool {
    ('a' <= c && c <= 'z') || ('A' <= c && c <= 'Z') || ('0' <= c && c <= '9') || c == '_'
        || c == '$'
}

/// The identifier-safe form of a resource id: every character that may
/// not stand in an identifier is replaced by `_`.
pub open spec fn sanitized(s: Seq<char>) -> Seq<char>
    decreases s.len(),
{
    if s.len() == 0 {
        Seq::empty()
    } else {
        sanitized(s.drop_last()) + (if is_ident_char(s.last()) {
            seq![s.last()]
        } else {
            seq!['_']
        })
    }
}

/// Opaque, comparable handle to a module's origin (real path or
/// virtual id). Its view is the character sequence of the id.
#[derive(Debug)]
pub struct ResourceId {
    id: String,
}

impl View for ResourceId {
    type V = Seq<char>;

    closed spec fn view(&self) -> Seq<char> {
        self.id@
    }
}

impl ResourceId {
    pub fn new(value: String) -> (r: ResourceId)
        ensures
            r@ == value@,
    {
        ResourceId { id: value }
    }

    pub fn as_str(&self) -> (r: &str)
        ensures
            r@ == self@,
    {
        self.id.as_str()
    }

    /// An owned copy with the same id.
    pub fn duplicate(&self) -> (r: ResourceId)
        ensures
            r@ == self@,
    {
        ResourceId { id: self.id.clone() }
    }

    /// The cwd-relative diagnostic form of this id.
    pub fn stabilize(&self, cwd: &str) -> (r: String)
        ensures
            r@ == stabilized(self@, cwd@),
    {
        stabilize_resource_id(self.id.as_str(), cwd)
    }

    /// The identifier-safe form of this id, used to name synthetic
    /// bindings derived from the module.
    pub fn unique_name(&self) -> (r: String)
        ensures
            r@ == sanitized(self@),
    {
        sanitize_identifier(self.id.as_str())
    }
}

/// True when some character of `s` is NUL.
fn contains_nul(s: &str) -> (r: bool)
    ensures
        r == s@.contains('\u{0}'),
{
    let n: usize = s.unicode_len();
    let mut i: usize = 0;
    while i < n
        invariant
            0 <= i <= n,
            n == s@.len(),
            forall|j: int| 0 <= j < i ==> s@[j] != '\u{0}',
        decreases n - i,
    {
        if s.get_char(i) == '\u{0}' {
            assert(s@.contains(s@[i as int]));
            return true;
        }
        i += 1;
    }
    assert(forall|j: int| 0 <= j < s@.len() ==> s@[j] != '\u{0}');
    false
}

proof fn lemma_escape_nul_take_step(s: Seq<char>, i: int)
    requires
        0 <= i < s.len(),
    ensures
        escape_nul(s.take(i + 1)) == escape_nul(s.take(i)) + (if s[i] == '\u{0}' {
            seq!['\\', '0']
        } else {
            seq![s[i]]
        }),
{
    let t = s.take(i + 1);
    assert(t.drop_last() =~= s.take(i));
    assert(t.last() == s[i]);
}

proof fn lemma_sanitized_take_step(s: Seq<char>, i: int)
    requires
        0 <= i < s.len(),
    ensures
        sanitized(s.take(i + 1)) == sanitized(s.take(i)) + (if is_ident_char(s[i]) {
            seq![s[i]]
        } else {
            seq!['_']
        }),
{
    let t = s.take(i + 1);
    assert(t.drop_last() =~= s.take(i));
    assert(t.last() == s[i]);
}

/// Builds the fully escaped form of a virtual module id.
fn escape_nul_exec(s: &str) -> (r: String)
    ensures
        r@ == escape_nul(s@),
{
    let n: usize = s.unicode_len();
    let mut out: String = String::new();
    let mut i: usize = 0;
    proof {
        reveal_strlit("\\0");
        assert(s@.take(0) =~= Seq::<char>::empty());
    }
    while i < n
        invariant
            0 <= i <= n,
            n == s@.len(),
            out@ == escape_nul(s@.take(i as int)),
            "\\0"@ == seq!['\\', '0'],
        decreases n - i,
    {
        let c = s.get_char(i);
        if c == '\u{0}' {
            out.append("\\0");
        } else {
            let piece = s.substring_char(i, i + 1);
            assert(piece@ =~= seq![s@[i as int]]);
            out.append(piece);
        }
        proof {
            lemma_escape_nul_take_step(s@, i as int);
        }
        i += 1;
    }
    proof {
        assert(s@.take(n as int) =~= s@);
    }
    out
}

/// True when `c` may stand in a generated identifier.
fn is_ident_char_exec(c: char) -> (r: bool)
    ensures
        r == is_ident_char(c),
{
    ('a' <= c && c <= 'z') || ('A' <= c && c <= 'Z') || ('0' <= c && c <= '9') || c == '_'
        || c == '$'
}

/// Replaces every character that may not stand in an identifier by `_`.
pub fn sanitize_identifier(s: &str) -> (r: String)
    ensures
        r@ == sanitized(s@),
{
    let n: usize = s.unicode_len();
    let mut out: String = String::new();
    let mut i: usize = 0;
    proof {
        reveal_strlit("_");
        assert(s@.take(0) =~= Seq::<char>::empty());
    }
    while i < n
        invariant
            0 <= i <= n,
            n == s@.len(),
            out@ == sanitized(s@.take(i as int)),
            "_"@ == seq!['_'],
        decreases n - i,
    {
        let c = s.get_char(i);
        if is_ident_char_exec(c) {
            let piece = s.substring_char(i, i + 1);
            assert(piece@ =~= seq![s@[i as int]]);
            out.append(piece);
        } else {
            out.append("_");
        }
        proof {
            lemma_sanitized_take_step(s@, i as int);
        }
        i += 1;
    }
    proof {
        assert(s@.take(n as int) =~= s@);
    }
    out
}

/// True when `s` lies below the directory `cwd`.
fn strips_cwd_exec(s: &str, cwd: &str) -> (r: bool)
    ensures
        r == strips_cwd(s@, cwd@),
{
    let n: usize = s.unicode_len();
    let m: usize = cwd.unicode_len();
    if n <= m || n - m <= 1 {
        return false;
    }
    if s.get_char(m) != '/' {
        return false;
    }
    let mut i: usize = 0;
    while i < m
        invariant
            0 <= i <= m,
            m == cwd@.len(),
            m + 1 < n == s@.len(),
            forall|j: int| 0 <= j < i ==> s@[j] == cwd@[j],
        decreases m - i,
    {
        if s.get_char(i) != cwd.get_char(i) {
            assert(s@.subrange(0, m as int)[i as int] != cwd@[i as int]);
            return false;
        }
        i += 1;
    }
    assert(s@.subrange(0, m as int) =~= cwd@);
    true
}

/// The cwd-relative diagnostic form of a resource id, per `stabilized`.
pub fn stabilize_resource_id(resource_id: &str, cwd: &str) -> (r: String)
    ensures
        r@ == stabilized(resource_id@, cwd@),
{
    if contains_nul(resource_id) {
        assert(resource_id@.len() > 0);
        if resource_id.get_char(0) == '\u{0}' {
            escape_nul_exec(resource_id)
        } else {
            resource_id.to_owned()
        }
    } else {
        let n: usize = resource_id.unicode_len();
        if n > 0 && resource_id.get_char(0) == '/' {
            if strips_cwd_exec(resource_id, cwd) {
                let m: usize = cwd.unicode_len();
                let rest = resource_id.substring_char(m + 1, n);
                rest.to_owned()
            } else {
                resource_id.to_owned()
            }
        } else {
            resource_id.to_owned()
        }
    }
}

} // verus!
