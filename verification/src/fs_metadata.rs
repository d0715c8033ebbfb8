//! Local-filesystem metadata handler: base directory of `file://` and
//! `direct://` URIs and resolution of paths relative to it.

use vstd::prelude::*;
use vstd::string::*;
use crate::metadata_ops::MetadataError;
use crate::text::{starts_with, starts_with_str};

verus! {

broadcast use vstd::string::group_string_axioms;

/// The path of a local URI: the text after `file://` or, failing that,
/// after `direct://`; `None` for other URIs.
pub open spec fn local_path_spec(uri: Seq<char>) -> Option<Seq<char>> {
    if starts_with(uri, "file://"@) {
        Some(uri.subrange(7, uri.len() as int))
    } else if starts_with(uri, "direct://"@) {
        Some(uri.subrange(9, uri.len() as int))
    } else {
        None
    }
}

/// A local URI gives back exactly the path after its scheme: `file://p` and
/// `direct://p` both give `p`; object-store URIs (`s3://`, `az://`, `gs://`)
/// are not local.
pub proof fn law_local_path_after_scheme(p: Seq<char>)
    ensures
        local_path_spec("file://"@ + p) == Some(p),
        local_path_spec("direct://"@ + p) == Some(p),
        local_path_spec("s3://"@ + p) is None,
        local_path_spec("az://"@ + p) is None,
        local_path_spec("gs://"@ + p) is None,
{
    reveal_strlit("file://");
    reveal_strlit("direct://");
    reveal_strlit("s3://");
    reveal_strlit("az://");
    reveal_strlit("gs://");
    let f = "file://"@ + p;
    let d = "direct://"@ + p;
    assert(f.subrange(0, 7) =~= "file://"@);
    assert(f.subrange(7, f.len() as int) =~= p);
    assert(d.subrange(0, 9) =~= "direct://"@);
    assert(d.subrange(9, d.len() as int) =~= p);
    assert(!starts_with(d, "file://"@)) by {
        if starts_with(d, "file://"@) {
            assert(d.subrange(0, 7)[0] == d[0]);
        }
    }
    let s = "s3://"@ + p;
    let a = "az://"@ + p;
    let g = "gs://"@ + p;
    assert(s[0] == 's' && a[0] == 'a' && g[0] == 'g');
    assert(!starts_with(s, "file://"@) && !starts_with(s, "direct://"@)) by {
        if starts_with(s, "file://"@) { assert(s.subrange(0, 7)[0] == s[0]); }
        if starts_with(s, "direct://"@) { assert(s.subrange(0, 9)[0] == s[0]); }
    }
    assert(!starts_with(a, "file://"@) && !starts_with(a, "direct://"@)) by {
        if starts_with(a, "file://"@) { assert(a.subrange(0, 7)[0] == a[0]); }
        if starts_with(a, "direct://"@) { assert(a.subrange(0, 9)[0] == a[0]); }
    }
    assert(!starts_with(g, "file://"@) && !starts_with(g, "direct://"@)) by {
        if starts_with(g, "file://"@) { assert(g.subrange(0, 7)[0] == g[0]); }
        if starts_with(g, "direct://"@) { assert(g.subrange(0, 9)[0] == g[0]); }
    }
}

/// Strip a local scheme (`file://` or `direct://`) from a URI.
pub fn strip_local_scheme(uri: &str) -> (r: Option<&str>)
    ensures
        match r {
            Some(p) => local_path_spec(uri@) == Some(p@),
            None => local_path_spec(uri@) is None,
        },
{
    proof {
        reveal_strlit("file://");
        reveal_strlit("direct://");
    }
    let n = uri.unicode_len();
    if starts_with_str(uri, "file://") {
        Some(uri.substring_char(7, n))
    } else if starts_with_str(uri, "direct://") {
        Some(uri.substring_char(9, n))
    } else {
        None
    }
}

/// `Path::join` on Unix: an absolute `p` replaces the base; otherwise `p` is
/// appended, with a `/` between them when the base is non-empty and does not
/// already end with one.
pub open spec fn path_join_spec(base: Seq<char>, p: Seq<char>) -> Seq<char> {
    if p.len() > 0 && p[0] == '/' {
        p
    } else if base.len() > 0 && base.last() != '/' {
        base + "/"@ + p
    } else {
        base + p
    }
}

/// Join a path to a base path (see `path_join_spec`).
pub fn path_join(base: &str, p: &str) -> (r: String)
    ensures
        r@ == path_join_spec(base@, p@),
{
    let mut r = String::new();
    let pn = p.unicode_len();
    let bn = base.unicode_len();
    if pn > 0 && p.get_char(0) == '/' {
        r.append(p);
    } else {
        r.append(base);
        if bn > 0 && base.get_char(bn - 1) != '/' {
            r.append("/");
        }
        r.append(p);
    }
    r
}

/// POSIX filesystem metadata operations handler.
pub struct FileMetadataOps {
    base_path: String,
}

impl FileMetadataOps {
    /// The base directory of the handler.
    pub closed spec fn base_spec(&self) -> Seq<char> {
        self.base_path@
    }

    /// Create a handler for a base URI like `file:///tmp/test/` or
    /// `direct:///mnt/data/`; any other text is taken as the path itself.
    pub fn new(base_uri: &str) -> (r: Result<Self, MetadataError>)
        ensures
            r is Ok,
            r matches Ok(h) && h.base_spec() == match local_path_spec(base_uri@) {
                Some(p) => p,
                None => base_uri@,
            },
    {
        let path_str = match strip_local_scheme(base_uri) {
            Some(p) => p,
            None => base_uri,
        };
        Ok(FileMetadataOps { base_path: String::from_str(path_str) })
    }

    /// The base directory.
    pub fn base_path(&self) -> (r: &str)
        ensures
            r@ == self.base_spec(),
    {
        self.base_path.as_str()
    }

    /// Resolve a path against the base directory: the empty path is the base
    /// itself; otherwise one leading `/` is dropped and the rest joined to the base.
    pub fn resolve_path(&self, path: &str) -> (r: String)
        ensures
            path@.len() == 0 ==> r@ == self.base_spec(),
            path@.len() > 0 ==> r@ == path_join_spec(
                self.base_spec(),
                if path@[0] == '/' {
                    path@.drop_first()
                } else {
                    path@
                },
            ),
    {
        let n = path.unicode_len();
        if n == 0 {
            return String::from_str(self.base_path.as_str());
        }
        let clean = if path.get_char(0) == '/' {
            path.substring_char(1, n)
        } else {
            path
        };
        proof {
            if path@[0] == '/' {
                assert(clean@ =~= path@.drop_first());
            }
        }
        path_join(self.base_path.as_str(), clean)
    }
}

} // verus!
