//! Name and message rules of the single-slot upload service.
//!
//! Every upload is written to one fixed path, `uploaded_image.<ext>`:
//! the stem never varies, and the extension is taken from the uploaded
//! file's own name, falling back to `jpg` when the name has none.

use vstd::prelude::*;
use vstd::string::*;

verus! {

/// The fallback stem used when the upload carries no usable name.
pub open spec fn default_name() -> Seq<char> {
    "uploaded_image"@
}

/// The extension used when the resolved name has none.
pub open spec fn default_extension() -> Seq<char> {
    "jpg"@
}

/// Index of the last `.` in `s`, or `-1` when there is none.
pub open spec fn last_dot(s: Seq<char>) -> int
    decreases s.len(),
{
    if s.len() == 0 {
        -1
    } else if s[s.len() - 1] == '.' {
        s.len() - 1
    } else {
        last_dot(s.drop_last())
    }
}

/// The name an upload resolves to: the original name when present and
/// non-empty, the fallback stem otherwise.
pub open spec fn resolved_name(raw: Option<Seq<char>>) -> Seq<char> {
    match raw {
        Some(n) => if n.len() > 0 {
            n
        } else {
            default_name()
        },
        None => default_name(),
    }
}

/// The extension of `name`: what follows the last dot, provided that dot
/// stands after the first character (a name that is dotless, starts with
/// its only dot, or is empty has no extension); the fallback otherwise.
pub open spec fn resolved_extension(name: Seq<char>) -> Seq<char> {
    let p = last_dot(name);
    if p > 0 {
        name.skip(p + 1)
    } else {
        default_extension()
    }
}

/// The single target path every upload overwrites: the fixed stem with
/// the resolved extension.
pub open spec fn target_path_of(raw: Option<Seq<char>>) -> Seq<char> {
    "uploaded_image."@ + resolved_extension(resolved_name(raw))
}

/// The view of an optional name.
pub open spec fn opt_view(raw: Option<&str>) -> Option<Seq<char>> {
    match raw {
        Some(s) => Some(s@),
        None => None,
    }
}

/// Resolves the name an upload goes by: the original name when present
/// and non-empty, the fallback stem otherwise.
pub fn resolve_file_name(raw: Option<&str>) -> (r: String)
    ensures
        r@ == resolved_name(opt_view(raw)),
{
    match raw {
        Some(s) => {
            if !s.is_empty() {
                s.to_owned()
            } else {
                "uploaded_image".to_owned()
            }
        },
        None => "uploaded_image".to_owned(),
    }
}

/// Finds the last dot of `name`, scanning from the end.
fn last_dot_index(name: &str) -> (r: Option<usize>)
    ensures
        match r {
            Some(p) => last_dot(name@) == p && (p as int) < name@.len(),
            None => last_dot(name@) == -1,
        },
{
    let n = name.unicode_len();
    let mut i: usize = n;
    proof {
        assert(name@.take(n as int) =~= name@);
    }
    while i > 0
        invariant
            i <= n,
            n == name@.len(),
            last_dot(name@) == last_dot(name@.take(i as int)),
        decreases i,
    {
        i -= 1;
        if name.get_char(i) == '.' {
            proof {
                assert(name@.take(i as int + 1)[i as int] == name@[i as int]);
                assert(last_dot(name@.take(i as int + 1)) == i as int);
            }
            return Some(i);
        }
        proof {
            assert(name@.take(i as int + 1)[i as int] == name@[i as int]);
            assert(name@.take(i as int + 1).drop_last() =~= name@.take(i as int));
        }
    }
    proof {
        assert(name@.take(0) =~= Seq::<char>::empty());
    }
    None
}

/// Resolves the extension of an uploaded file's name: what follows its
/// last dot, or the fallback `jpg` when it has no extension.
pub fn resolve_extension(name: &str) -> (r: String)
    ensures
        r@ == resolved_extension(name@),
{
    let n = name.unicode_len();
    match last_dot_index(name) {
        Some(p) => {
            if p > 0 {
                let ext = name.substring_char(p + 1, n);
                proof {
                    assert(name@.subrange(p as int + 1, n as int) =~= name@.skip(p as int + 1));
                }
                ext.to_owned()
            } else {
                "jpg".to_owned()
            }
        },
        None => "jpg".to_owned(),
    }
}

/// Resolves the target path of an upload: the fixed stem with the
/// extension taken from the uploaded file's name.
pub fn resolve_target_path(raw: Option<&str>) -> (r: String)
    ensures
        r@ == target_path_of(opt_view(raw)),
{
    let name = resolve_file_name(raw);
    let ext = resolve_extension(name.as_str());
    let mut out = "uploaded_image.".to_owned();
    out.append(ext.as_str());
    out
}

/// The response body of the upload route: one fixed text per outcome,
/// which is all an uploader learns of the write.
pub fn upload_message(success: bool) -> (r: &'static str)
    ensures
        success ==> r@ == "File uploaded successfully!"@,
        !success ==> r@ == "File upload failed."@,
{
    if success {
        "File uploaded successfully!"
    } else {
        "File upload failed."
    }
}

} // verus!
