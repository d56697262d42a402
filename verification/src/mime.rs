use vstd::prelude::*;
use crate::text::str_eq;

verus! {

/// Index of the last `.` in `name`, or `-1` when there is none.
pub open spec fn last_dot(name: Seq<char>) -> int
    decreases name.len(),
{
    if name.len() == 0 {
        -1
    } else if name[name.len() - 1] == '.' {
        name.len() - 1
    } else {
        last_dot(name.drop_last())
    }
}

/// The extension of a file name: the characters after the last `.`, provided
/// that dot is not the leading character (so a dot-leading name with no other
/// dot, or a name without a dot, has no extension).
pub open spec fn ext_of(name: Seq<char>) -> Option<Seq<char>> {
    if last_dot(name) > 0 {
        Some(name.skip(last_dot(name) + 1))
    } else {
        None
    }
}

/// The label used when no extension is recognised.
pub open spec fn generic_mime() -> Seq<char> {
    "application/octet-stream"@
}

/// The static classification table: a coarse content-type label for a
/// file-name extension; unknown extensions map to the generic label.
pub open spec fn mime_for_ext(e: Seq<char>) -> Seq<char> {
    if e == "txt"@ {
        "text/plain"@
    } else if e == "md"@ {
        "text/markdown"@
    } else if e == "html"@ {
        "text/html"@
    } else if e == "css"@ {
        "text/css"@
    } else if e == "csv"@ {
        "text/csv"@
    } else if e == "js"@ {
        "text/javascript"@
    } else if e == "json"@ {
        "application/json"@
    } else if e == "pdf"@ {
        "application/pdf"@
    } else if e == "zip"@ {
        "application/zip"@
    } else if e == "gz"@ {
        "application/gzip"@
    } else if e == "tar"@ {
        "application/x-tar"@
    } else if e == "xml"@ {
        "application/xml"@
    } else if e == "png"@ {
        "image/png"@
    } else if e == "jpg"@ {
        "image/jpeg"@
    } else if e == "jpeg"@ {
        "image/jpeg"@
    } else if e == "gif"@ {
        "image/gif"@
    } else if e == "svg"@ {
        "image/svg+xml"@
    } else if e == "webp"@ {
        "image/webp"@
    } else if e == "mp3"@ {
        "audio/mpeg"@
    } else if e == "wav"@ {
        "audio/x-wav"@
    } else if e == "ogg"@ {
        "audio/ogg"@
    } else if e == "mp4"@ {
        "video/mp4"@
    } else if e == "webm"@ {
        "video/webm"@
    } else if e == "mkv"@ {
        "video/x-matroska"@
    } else {
        generic_mime()
    }
}

/// The classification of a whole file name: the table applied to its
/// extension, or the generic label when it has none.
pub open spec fn mime_of_name(name: Seq<char>) -> Seq<char> {
    match ext_of(name) {
        Some(e) => mime_for_ext(e),
        None => generic_mime(),
    }
}

/// Index just past the last `.` of `name`, or `None` when `name` has no
/// extension under the rule of [`ext_of`].
fn find_ext_start(name: &str) -> (r: Option<usize>)
    ensures
        match r {
            Some(j) => 1 <= j < name@.len() + 1 && last_dot(name@) == j - 1 && ext_of(name@)
                == Some(name@.skip(j as int)),
            None => ext_of(name@) is None,
        },
{
    let len = name.unicode_len();
    let mut i: usize = len;
    proof {
        assert(name@.take(len as int) =~= name@);
    }
    while i > 0
        invariant
            len == name@.len(),
            i <= len,
            last_dot(name@) == last_dot(name@.take(i as int)),
        decreases i,
    {
        let c = name.get_char(i - 1);
        proof {
            assert(name@.take(i as int).len() == i);
            assert(name@.take(i as int)[i - 1] == name@[i - 1]);
            assert(name@.take(i as int).drop_last() =~= name@.take(i - 1));
        }
        if c == '.' {
            if i - 1 > 0 {
                return Some(i);
            } else {
                return None;
            }
        }
        i -= 1;
    }
    proof {
        assert(name@.take(0).len() == 0);
    }
    None
}

/// The coarse MIME classification of a file name, derived from its extension
/// alone; unknown or missing extensions give the generic label.
pub fn classify_name(name: &str) -> (r: String)
    ensures
        r@ == mime_of_name(name@),
{
    let len = name.unicode_len();
    match find_ext_start(name) {
        None => String::from_str("application/octet-stream"),
        Some(j) => {
            let ext = name.substring_char(j, len);
            let m: &str = if str_eq(ext, "txt") {
                "text/plain"
            } else if str_eq(ext, "md") {
                "text/markdown"
            } else if str_eq(ext, "html") {
                "text/html"
            } else if str_eq(ext, "css") {
                "text/css"
            } else if str_eq(ext, "csv") {
                "text/csv"
            } else if str_eq(ext, "js") {
                "text/javascript"
            } else if str_eq(ext, "json") {
                "application/json"
            } else if str_eq(ext, "pdf") {
                "application/pdf"
            } else if str_eq(ext, "zip") {
                "application/zip"
            } else if str_eq(ext, "gz") {
                "application/gzip"
            } else if str_eq(ext, "tar") {
                "application/x-tar"
            } else if str_eq(ext, "xml") {
                "application/xml"
            } else if str_eq(ext, "png") {
                "image/png"
            } else if str_eq(ext, "jpg") {
                "image/jpeg"
            } else if str_eq(ext, "jpeg") {
                "image/jpeg"
            } else if str_eq(ext, "gif") {
                "image/gif"
            } else if str_eq(ext, "svg") {
                "image/svg+xml"
            } else if str_eq(ext, "webp") {
                "image/webp"
            } else if str_eq(ext, "mp3") {
                "audio/mpeg"
            } else if str_eq(ext, "wav") {
                "audio/x-wav"
            } else if str_eq(ext, "ogg") {
                "audio/ogg"
            } else if str_eq(ext, "mp4") {
                "video/mp4"
            } else if str_eq(ext, "webm") {
                "video/webm"
            } else if str_eq(ext, "mkv") {
                "video/x-matroska"
            } else {
                "application/octet-stream"
            };
            String::from_str(m)
        },
    }
}

} // verus!
