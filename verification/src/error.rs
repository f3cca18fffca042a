//! Build errors: configuration, resolution, scanning, linking and I/O
//! failures, each carrying enough context to render a precise
//! diagnostic. Paths and messages are plain strings; the embedding
//! program turns them into its own error values.

use vstd::prelude::*;

verus! {

/// A fatal build error.
#[derive(Debug)]
pub enum Error {
    /// An entry specifier that the resolver cannot resolve.
    UnresolvedEntry { unresolved_id: String },
    /// An entry that resolved to an external module.
    ExternalEntry { id: String },
    /// A required binding that the importee does not export.
    MissingExport { importer: String, importee: String, missing_export: String },
    /// A name with two or more equally valid star-export resolutions.
    AmbiguousExport { importer: String, importee: String, binding: String },
    /// A re-export that references itself.
    CircularReexport { exporter: String, export_name: String },
    /// A binding that resolves through an external module where a
    /// concrete symbol is required.
    ExternalExport { exporter: String, export_name: String },
    /// A specifier that cannot be resolved from its importer.
    UnresolvedImport { specifier: String, importer: String },
    /// A module whose top-level syntax the scanner does not support.
    UnsupportedSyntax { resource: String },
    /// A configuration the build cannot start from.
    InvalidConfig { message: String },
    /// A failure reading a module's source.
    Io { message: String },
}

/// `a -> b -> c`: the members of `paths` joined by arrows.
pub open spec fn arrow_joined(paths: Seq<Seq<char>>) -> Seq<char>
    decreases paths.len(),
{
    if paths.len() == 0 {
        Seq::empty()
    } else if paths.len() == 1 {
        paths[0]
    } else {
        arrow_joined(paths.drop_last()) + " -> "@ + paths.last()
    }
}

/// `"a", "b" and "c"`: the members of `list` quoted, the first ones
/// joined by commas and the last one attached with `and`.
pub open spec fn quoted_joined(list: Seq<Seq<char>>) -> Seq<char>
    decreases list.len(),
{
    if list.len() == 0 {
        Seq::empty()
    } else if list.len() == 1 {
        quoted(list[0])
    } else {
        comma_joined(list.drop_last()) + " and "@ + quoted(list.last())
    }
}

/// The members of `list` quoted and joined by commas.
pub open spec fn comma_joined(list: Seq<Seq<char>>) -> Seq<char>
    decreases list.len(),
{
    if list.len() == 0 {
        Seq::empty()
    } else if list.len() == 1 {
        quoted(list[0])
    } else {
        comma_joined(list.drop_last()) + ", "@ + quoted(list.last())
    }
}

/// `s` in double quotes.
pub open spec fn quoted(s: Seq<char>) -> Seq<char> {
    "\""@ + s + "\""@
}

/// Joins path strings with ` -> ` for a cycle diagnostic.
pub fn format_paths(paths: &Vec<String>) -> (r: String)
    ensures
        r@ == arrow_joined(paths@.map_values(|p: String| p@)),
    {
    let ghost views = paths@.map_values(|p: String| p@);
    let mut out = String::new();
    let n = paths.len();
    let mut i: usize = 0;
    while i < n
        invariant
            0 <= i <= n,
            n == paths@.len(),
            views == paths@.map_values(|p: String| p@),
            out@ == arrow_joined(views.take(i as int)),
        decreases n - i,
    {
        if i > 0 {
            out.append(" -> ");
        }
        out.append(paths[i].as_str());
        proof {
            let t1 = views.take(i + 1);
            assert(t1.drop_last() =~= views.take(i as int));
            assert(t1.last() == views[i as int]);
            if i == 0 {
                assert(out@ == arrow_joined(t1));
            }
        }
        i += 1;
    }
    proof {
        assert(views.take(n as int) =~= views);
    }
    out
}

/// Quotes each string and joins them for a diagnostic: one alone, or
/// `"a", "b" and "c"`.
pub fn format_quoted_strings(list: &Vec<String>) -> (r: String)
    ensures
        r@ == quoted_joined(list@.map_values(|p: String| p@)),
{
    let ghost views = list@.map_values(|p: String| p@);
    let n = list.len();
    if n == 0 {
        return String::new();
    }
    let mut out = String::new();
    let mut i: usize = 0;
    let last = n - 1;
    while i < last
        invariant
            0 <= i <= last,
            last == n - 1,
            0 < n == list@.len(),
            views == list@.map_values(|p: String| p@),
            i == 0 ==> out@ == Seq::<char>::empty(),
            i > 0 ==> out@ == comma_joined(views.take(i as int)),
        decreases last - i,
    {
        if i > 0 {
            out.append(", ");
        }
        out.append("\"");
        out.append(list[i].as_str());
        out.append("\"");
        proof {
            let t1 = views.take(i + 1);
            assert(t1.drop_last() =~= views.take(i as int));
            assert(t1.last() == views[i as int]);
            if i == 0 {
                assert(out@ =~= quoted(views[0]));
                assert(comma_joined(t1) == quoted(t1[0]));
            }
        }
        i += 1;
    }
    if n == 1 {
        out.append("\"");
        out.append(list[0].as_str());
        out.append("\"");
        proof {
            assert(views.len() == 1);
            assert(out@ =~= quoted(views[0]));
            assert(quoted_joined(views) == quoted(views[0]));
        }
        return out;
    }
    out.append(" and ");
    out.append("\"");
    out.append(list[last].as_str());
    out.append("\"");
    proof {
        assert(views.take(last as int) =~= views.drop_last());
        assert(views.last() == views[last as int]);
        assert(out@ =~= comma_joined(views.drop_last()) + " and "@ + quoted(views.last()));
    }
    out
}

} // verus!
