use vstd::prelude::*;
use vstd::string::StringExecFns;
use vstd::utf8::encode_utf8;

verus! {

/// The MIME types that may be served inline.
pub open spec fn allowed_inline_types() -> Seq<Seq<char>> {
    seq![
        "text/css"@, "text/plain"@, "text/csv"@, "application/json"@, "application/ld+json"@,
        "image/jpeg"@, "image/gif"@, "image/png"@, "image/apng"@, "image/webp"@, "image/avif"@,
        "video/mp4"@, "video/webm"@, "video/ogg"@, "video/quicktime"@, "audio/mp4"@, "audio/webm"@,
        "audio/aac"@, "audio/mpeg"@, "audio/ogg"@, "audio/wave"@, "audio/wav"@, "audio/x-wav"@,
        "audio/x-pn-wav"@, "audio/flac"@, "audio/x-flac"@,
    ]
}

/// What `infer` detects in a buffer: the MIME type of the file format whose
/// magic bytes it finds, if any.
pub uninterp spec fn inferred_mime(buf: Seq<u8>) -> Option<Seq<char>>;

/// What `sanitize_filename` leaves of a file name, with truncation off and
/// the options' defaults otherwise (the Windows rules apply to builds for
/// Windows, a choice fixed when the library is built).
pub uninterp spec fn sanitized(name: Seq<char>) -> Seq<char>;

/// Relies on `infer::get` and `Type::mime_type`: the MIME type of the format
/// detected in `buf`, which depends on the bytes alone.
#[verifier::external_body]
fn detect_mime(buf: &[u8]) -> (r: Option<&'static str>)
    ensures
        match inferred_mime(buf@) {
            Some(m) => r matches Some(x) && x@ == m,
            None => r is None,
        },
{
    match infer::get(buf) {
        Some(t) => Some(t.mime_type()),
        None => None,
    }
}

/// Relies on `sanitize_filename::sanitize_with_options`, with truncation off
/// and the other options at their defaults.
#[verifier::external_body]
pub fn sanitise_filename(filename: String) -> (r: String)
    ensures
        r@ == sanitized(filename@),
{
    let options = sanitize_filename::Options { truncate: false, ..Default::default() };
    sanitize_filename::sanitize_with_options(filename, options)
}

/// The position of the first match of `pat` in `s` at or after `i`.
pub open spec fn first_match(s: Seq<char>, pat: Seq<char>, i: int) -> Option<int>
    decreases s.len() - i,
{
    if i < 0 || i + pat.len() > s.len() {
        None
    } else if s.subrange(i, i + pat.len()) == pat {
        Some(i)
    } else if i >= s.len() {
        None
    } else {
        first_match(s, pat, i + 1)
    }
}

/// What follows the first match of `pat` in `s`, if there is one.
pub open spec fn after_first(s: Seq<char>, pat: Seq<char>) -> Option<Seq<char>> {
    match first_match(s, pat, 0) {
        Some(i) => Some(s.subrange(i + pat.len(), s.len() as int)),
        None => None,
    }
}

/// Relies on `str::split_once`: it splits at the first match of the
/// delimiter; this keeps the part after it.
#[verifier::external_body]
fn split_after<'a>(s: &'a str, delimiter: &str) -> (r: Option<&'a str>)
    requires
        delimiter@.len() > 0,
    ensures
        match after_first(s@, delimiter@) {
            Some(t) => r matches Some(x) && x@ == t,
            None => r is None,
        },
{
    match s.split_once(delimiter) {
        Some((_, after)) => Some(after),
        None => None,
    }
}

/// `needle` occurs in `hay`.
pub open spec fn occurs(hay: Seq<u8>, needle: Seq<u8>) -> bool {
    exists|i: int| 0 <= i && i + needle.len() <= hay.len() && #[trigger] hay.subrange(i, i + needle.len()) == needle
}

fn bytes_equal(a: &[u8], b: &[u8]) -> (r: bool)
    ensures
        r == (a@ == b@),
{
    if a.len() != b.len() {
        return false;
    }
    for i in 0..a.len()
        invariant
            a@.len() == b@.len(),
            forall|j: int| 0 <= j < i ==> a@[j] == b@[j],
    {
        if a[i] != b[i] {
            return false;
        }
    }
    assert(a@ =~= b@);
    true
}

fn bytes_occur(hay: &[u8], needle: &[u8]) -> (r: bool)
    ensures
        r == occurs(hay@, needle@),
{
    if needle.len() > hay.len() {
        return false;
    }
    if needle.len() == 0 {
        assert(hay@.subrange(0int, 0int + needle@.len()) =~= needle@);
        return true;
    }
    let last = hay.len() - needle.len();
    for i in 0..last + 1
        invariant
            last == hay@.len() - needle@.len(),
            needle@.len() > 0,
            forall|k: int| 0 <= k < i ==> #[trigger] hay@.subrange(k, k + needle@.len()) != needle@,
    {
        let mut same = true;
        for j in 0..needle.len()
            invariant
                last == hay@.len() - needle@.len(),
                i <= last,
                i + needle@.len() <= hay@.len(),
                same == (forall|t: int| 0 <= t < j ==> hay@[i + t] == needle@[t]),
        {
            assert(i + j < hay@.len());
            assert(hay@.len() == hay.len());
            if hay[i + j] != needle[j] {
                same = false;
            }
        }
        if same {
            assert(hay@.subrange(i as int, i + needle@.len()) =~= needle@);
            return true;
        }
        assert(hay@.subrange(i as int, i + needle@.len()) != needle@) by {
            let t = choose|t: int| 0 <= t < needle@.len() && hay@[i + t] != needle@[t];
            assert(hay@.subrange(i as int, i + needle@.len())[t] == hay@[i + t]);
        }
    }
    false
}

/// A MIME type is served inline when it is one of the allowed types.
pub open spec fn inline_allowed(m: Seq<char>) -> bool {
    exists|i: int| 0 <= i < allowed_inline_types().len() && encode_utf8(m) == encode_utf8(#[trigger] allowed_inline_types()[i])
}

/// The disposition type for a buffer: `inline` where the detected type may
/// be served inline, `attachment` otherwise and where nothing is detected.
pub open spec fn disposition_type(buf: Seq<u8>) -> Seq<char> {
    match inferred_mime(buf) {
        Some(m) => if inline_allowed(m) {
            "inline"@
        } else {
            "attachment"@
        },
        None => "attachment"@,
    }
}

/// Returns `inline` or `attachment`, from the file type detected in `buf`.
pub fn content_disposition_type(buf: &[u8], content_type: &Option<String>) -> (r: &'static str)
    ensures
        r@ == disposition_type(buf@),
{
    let list: [&str; 26] = [
        "text/css", "text/plain", "text/csv", "application/json", "application/ld+json",
        "image/jpeg", "image/gif", "image/png", "image/apng", "image/webp", "image/avif",
        "video/mp4", "video/webm", "video/ogg", "video/quicktime", "audio/mp4", "audio/webm",
        "audio/aac", "audio/mpeg", "audio/ogg", "audio/wave", "audio/wav", "audio/x-wav",
        "audio/x-pn-wav", "audio/flac", "audio/x-flac",
    ];
    assert(forall|i: int| 0 <= i < 26 ==> #[trigger] list@[i]@ == allowed_inline_types()[i]);
    let mime = match detect_mime(buf) {
        Some(m) => m,
        None => {
            return "attachment";
        },
    };
    for i in 0..26
        invariant
            forall|i: int| 0 <= i < 26 ==> #[trigger] list@[i]@ == allowed_inline_types()[i],
            forall|k: int| 0 <= k < i ==> encode_utf8(mime@) != encode_utf8(#[trigger] allowed_inline_types()[k]),
            inferred_mime(buf@) == Some(mime@),
    {
        if bytes_equal(mime.as_bytes(), list[i].as_bytes()) {
            assert(encode_utf8(mime@) == encode_utf8(allowed_inline_types()[i as int]));
            assert(inline_allowed(mime@));
            return "inline";
        }
    }
    "attachment"
}

/// The content type to serve a buffer with: `application/octet-stream` where
/// no type is detected; `image/svg+xml` where the claimed type mentions `svg`
/// and the detected one `xml`; otherwise the detected type.
pub open spec fn content_type_for(buf: Seq<u8>, claimed: Option<Seq<char>>) -> Seq<char> {
    match inferred_mime(buf) {
        None => "application/octet-stream"@,
        Some(m) => match claimed {
            None => m,
            Some(c) => if occurs(encode_utf8(c), encode_utf8("svg"@)) && occurs(
                encode_utf8(m),
                encode_utf8("xml"@),
            ) {
                "image/svg+xml"@
            } else {
                m
            },
        },
    }
}

/// Overrides the claimed content type with the detected one.
pub fn make_content_type(buf: &[u8], content_type: &Option<String>) -> (r: &'static str)
    ensures
        r@ == content_type_for(
            buf@,
            match content_type {
                Some(c) => Some(c@),
                None => None,
            },
        ),
{
    let mime = match detect_mime(buf) {
        Some(m) => m,
        None => {
            return "application/octet-stream";
        },
    };
    match content_type {
        None => mime,
        Some(claimed) => {
            if bytes_occur(claimed.as_str().as_bytes(), "svg".as_bytes()) && bytes_occur(
                mime.as_bytes(),
                "xml".as_bytes(),
            ) {
                "image/svg+xml"
            } else {
                mime
            }
        },
    }
}

/// The file name a Content-Disposition carries: the requested one where
/// there is one, else what follows `filename=` in the given header, each
/// sanitised; nothing where neither gives a name.
pub open spec fn disposition_filename(
    content_disposition: Option<Seq<char>>,
    req_filename: Option<Seq<char>>,
) -> Seq<char> {
    match req_filename {
        Some(f) => sanitized(f),
        None => match content_disposition {
            Some(c) => match after_first(c, "filename="@) {
                Some(t) => if t.len() == 0 {
                    Seq::empty()
                } else {
                    sanitized(t)
                },
                None => Seq::empty(),
            },
            None => Seq::empty(),
        },
    }
}

/// Builds the Content-Disposition value: the disposition type, followed by
/// `; filename=` and the file name where there is one.
pub fn make_content_disposition(
    file: &[u8],
    content_type: &Option<String>,
    content_disposition: Option<String>,
    req_filename: Option<String>,
) -> (r: String)
    ensures
        ({
            let name = disposition_filename(
                match content_disposition {
                    Some(c) => Some(c@),
                    None => None,
                },
                match req_filename {
                    Some(f) => Some(f@),
                    None => None,
                },
            );
            r@ == if name.len() > 0 {
                disposition_type(file@) + "; filename="@ + name
            } else {
                disposition_type(file@)
            }
        }),
{
    let filename: String = match req_filename {
        Some(req) => sanitise_filename(req),
        None => match content_disposition {
            Some(cd) => match {
                proof {
                    reveal_strlit("filename=");
                }
                split_after(cd.as_str(), "filename=")
            } {
                Some(after) => {
                    if after.is_empty() {
                        String::new()
                    } else {
                        sanitise_filename(String::from_str(after))
                    }
                },
                None => String::new(),
            },
            None => String::new(),
        },
    };
    let kind = content_disposition_type(file, content_type);
    if !filename.as_str().is_empty() {
        let mut out = String::from_str(kind);
        out.append("; filename=");
        out.append(filename.as_str());
        out
    } else {
        String::from_str(kind)
    }
}

} // verus!
