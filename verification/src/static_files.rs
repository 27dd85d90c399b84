//! In-memory static files with precompressed (`.br` / `.gz`) variants,
//! served by name with the encoding the client accepts.
use vstd::prelude::*;

use vstd::utf8::encode_utf8;

use crate::bytes::{bytes_eq, find, spec_find};
use crate::h1::{ascii, ascii_bytes};
use crate::response::{status_only, Response, CONTENT_ENCODING, CONTENT_TYPE};

verus! {

// ── content types ───────────────────────────────────────────────────────────

/// The part of a file name after its last `.` (the whole name when it has
/// none).
pub open spec fn spec_extension(name: Seq<u8>) -> Seq<u8>
    decreases name.len(),
{
    if name.len() == 0 || name.last() == 46 {
        Seq::<u8>::empty()
    } else {
        spec_extension(name.drop_last()).push(name.last())
    }
}

/// The content type served for a file with extension `ext`.
pub open spec fn spec_content_type(ext: Seq<u8>) -> Seq<char> {
    if ext == ascii("css"@) {
        "text/css; charset=utf-8"@
    } else if ext == ascii("js"@) || ext == ascii("mjs"@) {
        "text/javascript; charset=utf-8"@
    } else if ext == ascii("html"@) || ext == ascii("htm"@) {
        "text/html; charset=utf-8"@
    } else if ext == ascii("json"@) {
        "application/json"@
    } else if ext == ascii("svg"@) {
        "image/svg+xml"@
    } else if ext == ascii("webp"@) {
        "image/webp"@
    } else if ext == ascii("png"@) {
        "image/png"@
    } else if ext == ascii("jpg"@) || ext == ascii("jpeg"@) {
        "image/jpeg"@
    } else if ext == ascii("woff2"@) {
        "font/woff2"@
    } else if ext == ascii("woff"@) {
        "font/woff"@
    } else if ext == ascii("ico"@) {
        "image/x-icon"@
    } else if ext == ascii("txt"@) {
        "text/plain; charset=utf-8"@
    } else {
        "application/octet-stream"@
    }
}

fn extension(name: &[u8]) -> (r: &[u8])
    ensures
        r@ == spec_extension(name@),
{
    let mut start: usize = name.len();
    let ghost n = name@;
    assert(n.subrange(start as int, n.len() as int) =~= Seq::<u8>::empty());
    assert(n.take(start as int) =~= n);
    assert(spec_extension(n) + Seq::<u8>::empty() =~= spec_extension(n));
    while start > 0 && name[start - 1] != 46u8
        invariant
            start <= n.len(),
            n == name@,
            forall|k: int| start <= k < n.len() ==> n[k] != 46,
            spec_extension(n) == spec_extension(n.take(start as int)) + n.subrange(
                start as int,
                n.len() as int,
            ),
        decreases start,
    {
        let ghost pre = n.take(start as int);
        assert(pre.drop_last() =~= n.take(start - 1));
        assert(pre.last() == n[start - 1]);
        assert(spec_extension(pre) == spec_extension(n.take(start - 1)).push(n[start - 1]));
        assert(spec_extension(n.take(start - 1)).push(n[start - 1]) + n.subrange(
            start as int,
            n.len() as int,
        ) =~= spec_extension(n.take(start - 1)) + n.subrange(start - 1, n.len() as int));
        start = start - 1;
    }
    let nl = name.len();
    let r = &name[start..nl];
    assert(spec_extension(n.take(start as int)) =~= Seq::<u8>::empty());
    assert(r@ =~= n.subrange(start as int, n.len() as int));
    assert(Seq::<u8>::empty() + r@ =~= r@);
    r
}

fn content_type_of(name: &[u8]) -> (r: &'static str)
    ensures
        r@ == spec_content_type(spec_extension(name@)),
{
    let ext = extension(name);
    proof {
        reveal_strlit("css");
        reveal_strlit("js");
        reveal_strlit("mjs");
        reveal_strlit("html");
        reveal_strlit("htm");
        reveal_strlit("json");
        reveal_strlit("svg");
        reveal_strlit("webp");
        reveal_strlit("png");
        reveal_strlit("jpg");
        reveal_strlit("jpeg");
        reveal_strlit("woff2");
        reveal_strlit("woff");
        reveal_strlit("ico");
        reveal_strlit("txt");
    }
    if bytes_eq(ext, ascii_bytes("css")) {
        "text/css; charset=utf-8"
    } else if bytes_eq(ext, ascii_bytes("js")) || bytes_eq(ext, ascii_bytes("mjs")) {
        "text/javascript; charset=utf-8"
    } else if bytes_eq(ext, ascii_bytes("html")) || bytes_eq(ext, ascii_bytes("htm")) {
        "text/html; charset=utf-8"
    } else if bytes_eq(ext, ascii_bytes("json")) {
        "application/json"
    } else if bytes_eq(ext, ascii_bytes("svg")) {
        "image/svg+xml"
    } else if bytes_eq(ext, ascii_bytes("webp")) {
        "image/webp"
    } else if bytes_eq(ext, ascii_bytes("png")) {
        "image/png"
    } else if bytes_eq(ext, ascii_bytes("jpg")) || bytes_eq(ext, ascii_bytes("jpeg")) {
        "image/jpeg"
    } else if bytes_eq(ext, ascii_bytes("woff2")) {
        "font/woff2"
    } else if bytes_eq(ext, ascii_bytes("woff")) {
        "font/woff"
    } else if bytes_eq(ext, ascii_bytes("ico")) {
        "image/x-icon"
    } else if bytes_eq(ext, ascii_bytes("txt")) {
        "text/plain; charset=utf-8"
    } else {
        "application/octet-stream"
    }
}

/// The content type for a file name, by its extension.
pub fn content_type_for(name: &str) -> (r: &'static str)
    ensures
        r@ == spec_content_type(spec_extension(encode_utf8(name@))),
{
    content_type_of(name.as_bytes())
}

// ── the preloaded files ─────────────────────────────────────────────────────

/// One file: its content type, its plain bytes, and its brotli and gzip
/// variants when they were found.
pub struct StaticFile {
    pub content_type: &'static str,
    pub plain: Vec<u8>,
    pub br: Option<Vec<u8>>,
    pub gz: Option<Vec<u8>>,
}

/// A file as values: content type, plain bytes, brotli and gzip variants.
pub type FileView = (Seq<char>, Seq<u8>, Option<Seq<u8>>, Option<Seq<u8>>);

pub open spec fn opt_bytes(o: Option<Vec<u8>>) -> Option<Seq<u8>> {
    match o {
        Some(v) => Some(v@),
        None => None,
    }
}

impl StaticFile {
    pub open spec fn view(&self) -> FileView {
        (self.content_type@, self.plain@, opt_bytes(self.br), opt_bytes(self.gz))
    }
}

/// The entry a file named `base` starts from: its content type and nothing
/// loaded yet.
pub open spec fn fresh_file(base: Seq<u8>) -> FileView {
    (spec_content_type(spec_extension(base)), Seq::<u8>::empty(), None, None)
}

/// `s` ends with `suffix`.
pub open spec fn ends_with(s: Seq<u8>, suffix: Seq<u8>) -> bool {
    s.len() >= suffix.len() && s.skip(s.len() - suffix.len()) == suffix
}

/// The files after loading the file `name` with contents `data`: `X.br`
/// and `X.gz` become the brotli and gzip variants of `X`, any other name
/// the plain contents; an entry is created with `fresh_file` when needed.
pub open spec fn spec_add_file(m: Map<Seq<u8>, FileView>, name: Seq<u8>, data: Seq<u8>) -> Map<
    Seq<u8>,
    FileView,
> {
    if ends_with(name, ascii(".br"@)) {
        let base = name.take(name.len() - 3);
        let f = if m.contains_key(base) {
            m[base]
        } else {
            fresh_file(base)
        };
        m.insert(base, (f.0, f.1, Some(data), f.3))
    } else if ends_with(name, ascii(".gz"@)) {
        let base = name.take(name.len() - 3);
        let f = if m.contains_key(base) {
            m[base]
        } else {
            fresh_file(base)
        };
        m.insert(base, (f.0, f.1, f.2, Some(data)))
    } else {
        let f = if m.contains_key(name) {
            m[name]
        } else {
            fresh_file(name)
        };
        m.insert(name, (f.0, data, f.2, f.3))
    }
}

/// Files preloaded into memory, found by name.
pub struct StaticPreload {
    names: Vec<Vec<u8>>,
    files: Vec<StaticFile>,
}

impl StaticPreload {
    /// One entry per name.
    pub closed spec fn wf(&self) -> bool {
        &&& self.names@.len() == self.files@.len()
        &&& forall|i: int, j: int|
            0 <= i < j < self.names@.len() ==> (#[trigger] self.names@[i])@ != (
            #[trigger] self.names@[j])@
    }

    /// Each file by name.
    pub closed spec fn view(&self) -> Map<Seq<u8>, FileView> {
        Map::new(
            |k: Seq<u8>| exists|i: int| 0 <= i < self.names@.len() && (#[trigger] self.names@[i])@ == k,
            |k: Seq<u8>|
                self.files@[choose|i: int|
                    0 <= i < self.names@.len() && (#[trigger] self.names@[i])@ == k]@,
        )
    }

    /// No files.
    pub fn new() -> (p: StaticPreload)
        ensures
            p.wf(),
            p.view() == Map::<Seq<u8>, FileView>::empty(),
    {
        let p = StaticPreload { names: Vec::new(), files: Vec::new() };
        assert(p.view() =~= Map::<Seq<u8>, FileView>::empty());
        p
    }

    proof fn lemma_view_at(&self, i: int)
        requires
            self.wf(),
            0 <= i < self.names@.len(),
        ensures
            self.view().contains_key(self.names@[i]@),
            self.view()[self.names@[i]@] == self.files@[i]@,
    {
        let k = self.names@[i]@;
        assert(exists|j: int| 0 <= j < self.names@.len() && (#[trigger] self.names@[j])@ == k);
        let j = choose|j: int| 0 <= j < self.names@.len() && (#[trigger] self.names@[j])@ == k;
        if j != i {
            if j < i {
                assert(self.names@[j]@ != self.names@[i]@);
            } else {
                assert(self.names@[i]@ != self.names@[j]@);
            }
        }
    }

    /// The index of `name`, if present.
    fn index_of(&self, name: &[u8]) -> (r: Option<usize>)
        requires
            self.wf(),
        ensures
            match r {
                Some(i) => i < self.names@.len() && self.names@[i as int]@ == name@,
                None => !self.view().contains_key(name@),
            },
    {
        let mut i: usize = 0;
        while i < self.names.len()
            invariant
                i <= self.names@.len(),
                forall|j: int| 0 <= j < i ==> (#[trigger] self.names@[j])@ != name@,
            decreases self.names@.len() - i,
        {
            if bytes_eq(self.names[i].as_slice(), name) {
                return Some(i);
            }
            i = i + 1;
        }
        None
    }

    /// Adds one file read from the static directory (see `spec_add_file`).
    pub fn add_file(&mut self, name: &str, data: Vec<u8>)
        requires
            old(self).wf(),
        ensures
            final(self).wf(),
            final(self).view() == spec_add_file(old(self).view(), encode_utf8(name@), data@),
    {
        let n = name.as_bytes();
        let nl = n.len();
        proof {
            reveal_strlit(".br");
            reveal_strlit(".gz");
        }
        let is_br = nl >= 3 && bytes_eq(&n[nl - 3..nl], ascii_bytes(".br"));
        let is_gz = !is_br && nl >= 3 && bytes_eq(&n[nl - 3..nl], ascii_bytes(".gz"));
        proof {
            if nl >= 3 {
                assert(n@.subrange(nl - 3, nl as int) =~= n@.skip(nl - 3));
            }
        }
        let key: &[u8] = if is_br || is_gz {
            &n[0..nl - 3]
        } else {
            &n[0..nl]
        };
        proof {
            if is_br || is_gz {
                assert(key@ =~= n@.take(nl - 3));
            } else {
                assert(key@ =~= n@);
            }
        }
        let ghost m0 = self.view();
        let idx = match self.index_of(key) {
            Some(i) => i,
            None => {
                let fresh = StaticFile {
                    content_type: content_type_of(key),
                    plain: Vec::new(),
                    br: None,
                    gz: None,
                };
                let ghost names0 = self.names@;
                self.names.push(vstd::slice::slice_to_vec(key));
                self.files.push(fresh);
                proof {
                    assert forall|i: int, j: int|
                        0 <= i < j < self.names@.len() implies (#[trigger] self.names@[i])@ != (
                        #[trigger] self.names@[j])@ by {
                        if j == names0.len() {
                            assert(self.names@[i] == names0[i]);
                        } else {
                            assert(self.names@[i] == names0[i]);
                            assert(self.names@[j] == names0[j]);
                        }
                    }
                    self.lemma_view_at(names0.len() as int);
                    assert forall|k: Seq<u8>| k != key@ implies self.view().contains_key(k)
                        == m0.contains_key(k) by {
                        if m0.contains_key(k) {
                            let i = choose|i: int|
                                0 <= i < names0.len() && (#[trigger] names0[i])@ == k;
                            assert(self.names@[i] == names0[i]);
                        }
                        if self.view().contains_key(k) {
                            let i = choose|i: int|
                                0 <= i < self.names@.len() && (#[trigger] self.names@[i])@ == k;
                            assert(names0[i] == self.names@[i]);
                        }
                    }
                    assert forall|k: Seq<u8>| k != key@ && m0.contains_key(k) implies self.view()[k]
                        == m0[k] by {
                        let i = choose|i: int|
                            0 <= i < names0.len() && (#[trigger] names0[i])@ == k;
                        assert(self.names@[i] == names0[i]);
                        self.lemma_view_at(i);
                    }
                }
                self.names.len() - 1
            },
        };
        let ghost m1 = self.view();
        proof {
            self.lemma_view_at(idx as int);
        }
        let mut f = StaticFile { content_type: "", plain: Vec::new(), br: None, gz: None };
        std::mem::swap(&mut f, &mut self.files[idx]);
        if is_br {
            f.br = Some(data);
        } else if is_gz {
            f.gz = Some(data);
        } else {
            f.plain = data;
        }
        self.files.set(idx, f);
        proof {
            self.lemma_view_at(idx as int);
            assert forall|k: Seq<u8>| k != key@ implies self.view().contains_key(k)
                == m1.contains_key(k) && (m1.contains_key(k) ==> self.view()[k] == m1[k]) by {
                if m1.contains_key(k) {
                    let i = choose|i: int|
                        0 <= i < self.names@.len() && (#[trigger] self.names@[i])@ == k;
                    self.lemma_view_at(i);
                }
            }
            assert(self.view() =~= spec_add_file(m0, n@, data@));
        }
    }

    /// `GET /static/*`: the file named by the request path (without its
    /// leading slashes) with its content type, in the encoding picked by
    /// `spec_pick` for the `Accept-Encoding` header (absent counts as
    /// empty), announced in `Content-Encoding`; `404` for an unknown name.
    pub fn run(&self, path: &str, accept_encoding: Option<&str>) -> (r: Response)
        requires
            self.wf(),
        ensures
            ({
                let name = Self::served_name(encode_utf8(path@));
                let accept = match accept_encoding {
                    Some(a) => encode_utf8(a@),
                    None => Seq::<u8>::empty(),
                };
                if !self.view().contains_key(name) {
                    r.status == 404 && r.header_seq().len() == 0 && r.body@.len() == 0
                } else {
                    let f = self.view()[name];
                    let (body, enc) = spec_pick(f, accept);
                    &&& r.status == 200
                    &&& r.body@ == body
                    &&& r.header_seq() == match enc {
                        Some(e) => seq![(CONTENT_TYPE@, f.0), (CONTENT_ENCODING@, e)],
                        None => seq![(CONTENT_TYPE@, f.0)],
                    }
                }
            }),
    {
        let p = path.as_bytes();
        let pl = p.len();
        let mut start: usize = 0;
        assert(p@.subrange(0, pl as int) =~= p@);
        while start < pl && p[start] == 47u8
            invariant
                start <= pl,
                pl == p@.len(),
                Self::served_name(p@.subrange(start as int, pl as int)) == Self::served_name(p@),
            decreases pl - start,
        {
            assert(p@.subrange(start as int, pl as int).drop_first() =~= p@.subrange(
                start + 1,
                pl as int,
            ));
            start = start + 1;
        }
        let name = &p[start..pl];
        assert(Self::served_name(name@) == name@);
        let idx = match self.index_of(name) {
            Some(i) => i,
            None => {
                return status_only(404);
            },
        };
        proof {
            self.lemma_view_at(idx as int);
            reveal_strlit("br");
            reveal_strlit("gzip");
        }
        let accept: &[u8] = match accept_encoding {
            Some(a) => a.as_bytes(),
            None => &p[0..0],
        };
        assert(accept@ == match accept_encoding {
            Some(a) => encode_utf8(a@),
            None => Seq::<u8>::empty(),
        });
        let file = &self.files[idx];
        let mut headers: Vec<(&'static str, &'static str)> = Vec::new();
        headers.push((CONTENT_TYPE, file.content_type));
        let ghost h0 = headers@;
        let body: Vec<u8> = match &file.br {
            Some(b) if find(accept, ascii_bytes("br")).is_some() => {
                headers.push((CONTENT_ENCODING, "br"));
                vstd::slice::slice_to_vec(b.as_slice())
            },
            _ => match &file.gz {
                Some(g) if find(accept, ascii_bytes("gzip")).is_some() => {
                    headers.push((CONTENT_ENCODING, "gzip"));
                    vstd::slice::slice_to_vec(g.as_slice())
                },
                _ => vstd::slice::slice_to_vec(file.plain.as_slice()),
            },
        };
        let r = Response { status: 200, headers, body };
        assert(r.header_seq() =~= match spec_pick(file@, accept@).1 {
            Some(e) => seq![(CONTENT_TYPE@, file@.0), (CONTENT_ENCODING@, e)],
            None => seq![(CONTENT_TYPE@, file@.0)],
        });
        r
    }

    /// The file served for a request path: the path without its leading
    /// slashes.
    pub open spec fn served_name(path: Seq<u8>) -> Seq<u8>
        decreases path.len(),
    {
        if path.len() > 0 && path[0] == 47 {
            Self::served_name(path.drop_first())
        } else {
            path
        }
    }
}

/// The bytes chosen for a request accepting `accept`, with the encoding to
/// announce: brotli when there is a variant and `accept` mentions `br`,
/// else gzip when there is one and it mentions `gzip`, else the plain file.
pub open spec fn spec_pick(f: FileView, accept: Seq<u8>) -> (Seq<u8>, Option<Seq<char>>) {
    if f.2 is Some && spec_find(accept, ascii("br"@)) is Some {
        (f.2->0, Some("br"@))
    } else if f.3 is Some && spec_find(accept, ascii("gzip"@)) is Some {
        (f.3->0, Some("gzip"@))
    } else {
        (f.1, None)
    }
}

/// The preload does not depend on the order in which the directory lists
/// its files: loading two different files in either order gives the same
/// result.
pub proof fn law_preload_order_independent(
    m: Map<Seq<u8>, FileView>,
    a: Seq<u8>,
    da: Seq<u8>,
    b: Seq<u8>,
    db: Seq<u8>,
)
    requires
        a != b,
    ensures
        spec_add_file(spec_add_file(m, a, da), b, db) == spec_add_file(
            spec_add_file(m, b, db),
            a,
            da,
        ),
{
    reveal_strlit(".br");
    reveal_strlit(".gz");
    let ka = if ends_with(a, ascii(".br"@)) || ends_with(a, ascii(".gz"@)) {
        a.take(a.len() - 3)
    } else {
        a
    };
    let kb = if ends_with(b, ascii(".br"@)) || ends_with(b, ascii(".gz"@)) {
        b.take(b.len() - 3)
    } else {
        b
    };
    if ka == kb {
        // Same entry: the two files fill different parts of it.
        if ends_with(a, ascii(".br"@)) && ends_with(b, ascii(".br"@)) {
            assert(a =~= a.take(a.len() - 3) + a.skip(a.len() - 3));
            assert(b =~= b.take(b.len() - 3) + b.skip(b.len() - 3));
            assert(a =~= b);
        } else if ends_with(a, ascii(".gz"@)) && ends_with(b, ascii(".gz"@)) {
            assert(a =~= a.take(a.len() - 3) + a.skip(a.len() - 3));
            assert(b =~= b.take(b.len() - 3) + b.skip(b.len() - 3));
            assert(a =~= b);
        }
        assert(spec_add_file(spec_add_file(m, a, da), b, db) =~= spec_add_file(
            spec_add_file(m, b, db),
            a,
            da,
        ));
    } else {
        assert(spec_add_file(spec_add_file(m, a, da), b, db) =~= spec_add_file(
            spec_add_file(m, b, db),
            a,
            da,
        ));
    }
}

/// A file loaded under its plain name is served as loaded to a client that
/// accepts no compressed encoding.
pub proof fn law_plain_file_served_as_loaded(
    m: Map<Seq<u8>, FileView>,
    name: Seq<u8>,
    data: Seq<u8>,
    accept: Seq<u8>,
)
    requires
        !ends_with(name, ascii(".br"@)),
        !ends_with(name, ascii(".gz"@)),
        spec_find(accept, ascii("br"@)) is None,
        spec_find(accept, ascii("gzip"@)) is None,
    ensures
        spec_add_file(m, name, data).contains_key(name),
        spec_pick(spec_add_file(m, name, data)[name], accept) == (data, None::<Seq<char>>),
{
}

// ── laws on content types and encodings ─────────────────────────────────────

/// The extension of a name ending in `.` and `e` (without a `.`) is `e`.
proof fn lemma_extension_after_dot(p: Seq<u8>, e: Seq<u8>)
    requires
        forall|i: int| 0 <= i < e.len() ==> e[i] != 46,
    ensures
        spec_extension(p.push(46u8) + e) == e,
    decreases e.len(),
{
    let name = p.push(46u8) + e;
    if e.len() == 0 {
        assert(name =~= p.push(46u8));
    } else {
        assert(name.drop_last() =~= p.push(46u8) + e.drop_last());
        lemma_extension_after_dot(p, e.drop_last());
        assert(e.drop_last().push(e.last()) =~= e);
    }
}

/// A name without a `.` is its own extension.
pub proof fn law_extension_without_dot(name: Seq<u8>)
    requires
        forall|i: int| 0 <= i < name.len() ==> name[i] != 46,
    ensures
        spec_extension(name) == name,
    decreases name.len(),
{
    if name.len() > 0 {
        law_extension_without_dot(name.drop_last());
        assert(name.drop_last().push(name.last()) =~= name);
    }
}

/// The content type of every file named `stem.ext`, by the part after its
/// last dot: one fact per extension of the table.
pub proof fn law_content_type_table(stem: Seq<u8>)
    ensures
        spec_content_type(spec_extension(stem.push(46u8) + seq![99u8, 115, 115]))
            == "text/css; charset=utf-8"@,
        spec_content_type(spec_extension(stem.push(46u8) + seq![106u8, 115]))
            == "text/javascript; charset=utf-8"@,
        spec_content_type(spec_extension(stem.push(46u8) + seq![109u8, 106, 115]))
            == "text/javascript; charset=utf-8"@,
        spec_content_type(spec_extension(stem.push(46u8) + seq![104u8, 116, 109, 108]))
            == "text/html; charset=utf-8"@,
        spec_content_type(spec_extension(stem.push(46u8) + seq![104u8, 116, 109]))
            == "text/html; charset=utf-8"@,
        spec_content_type(spec_extension(stem.push(46u8) + seq![106u8, 115, 111, 110]))
            == "application/json"@,
        spec_content_type(spec_extension(stem.push(46u8) + seq![115u8, 118, 103]))
            == "image/svg+xml"@,
        spec_content_type(spec_extension(stem.push(46u8) + seq![119u8, 101, 98, 112]))
            == "image/webp"@,
        spec_content_type(spec_extension(stem.push(46u8) + seq![112u8, 110, 103]))
            == "image/png"@,
        spec_content_type(spec_extension(stem.push(46u8) + seq![106u8, 112, 103]))
            == "image/jpeg"@,
        spec_content_type(spec_extension(stem.push(46u8) + seq![106u8, 112, 101, 103]))
            == "image/jpeg"@,
        spec_content_type(spec_extension(stem.push(46u8) + seq![119u8, 111, 102, 102, 50]))
            == "font/woff2"@,
        spec_content_type(spec_extension(stem.push(46u8) + seq![119u8, 111, 102, 102]))
            == "font/woff"@,
        spec_content_type(spec_extension(stem.push(46u8) + seq![105u8, 99, 111]))
            == "image/x-icon"@,
        spec_content_type(spec_extension(stem.push(46u8) + seq![116u8, 120, 116]))
            == "text/plain; charset=utf-8"@,
{
    reveal_strlit("css");
    reveal_strlit("js");
    reveal_strlit("mjs");
    reveal_strlit("html");
    reveal_strlit("htm");
    reveal_strlit("json");
    reveal_strlit("svg");
    reveal_strlit("webp");
    reveal_strlit("png");
    reveal_strlit("jpg");
    reveal_strlit("jpeg");
    reveal_strlit("woff2");
    reveal_strlit("woff");
    reveal_strlit("ico");
    reveal_strlit("txt");
    lemma_extension_after_dot(stem, seq![99u8, 115, 115]);
    lemma_extension_after_dot(stem, seq![106u8, 115]);
    lemma_extension_after_dot(stem, seq![109u8, 106, 115]);
    lemma_extension_after_dot(stem, seq![104u8, 116, 109, 108]);
    lemma_extension_after_dot(stem, seq![104u8, 116, 109]);
    lemma_extension_after_dot(stem, seq![106u8, 115, 111, 110]);
    lemma_extension_after_dot(stem, seq![115u8, 118, 103]);
    lemma_extension_after_dot(stem, seq![119u8, 101, 98, 112]);
    lemma_extension_after_dot(stem, seq![112u8, 110, 103]);
    lemma_extension_after_dot(stem, seq![106u8, 112, 103]);
    lemma_extension_after_dot(stem, seq![106u8, 112, 101, 103]);
    lemma_extension_after_dot(stem, seq![119u8, 111, 102, 102, 50]);
    lemma_extension_after_dot(stem, seq![119u8, 111, 102, 102]);
    lemma_extension_after_dot(stem, seq![105u8, 99, 111]);
    lemma_extension_after_dot(stem, seq![116u8, 120, 116]);
    assert(ascii("css"@) =~= seq![99u8, 115, 115]);
    assert(ascii("js"@) =~= seq![106u8, 115]);
    assert(ascii("mjs"@) =~= seq![109u8, 106, 115]);
    assert(ascii("html"@) =~= seq![104u8, 116, 109, 108]);
    assert(ascii("htm"@) =~= seq![104u8, 116, 109]);
    assert(ascii("json"@) =~= seq![106u8, 115, 111, 110]);
    assert(ascii("svg"@) =~= seq![115u8, 118, 103]);
    assert(ascii("webp"@) =~= seq![119u8, 101, 98, 112]);
    assert(ascii("png"@) =~= seq![112u8, 110, 103]);
    assert(ascii("jpg"@) =~= seq![106u8, 112, 103]);
    assert(ascii("jpeg"@) =~= seq![106u8, 112, 101, 103]);
    assert(ascii("woff2"@) =~= seq![119u8, 111, 102, 102, 50]);
    assert(ascii("woff"@) =~= seq![119u8, 111, 102, 102]);
    assert(ascii("ico"@) =~= seq![105u8, 99, 111]);
    assert(ascii("txt"@) =~= seq![116u8, 120, 116]);
}

/// `n` occurs somewhere in `h`.
pub open spec fn mentions(h: Seq<u8>, n: Seq<u8>) -> bool {
    exists|i: int| 0 <= i && i + n.len() <= h.len() && #[trigger] h.subrange(i, i + n.len()) == n
}

/// A needle that occurs is found.
proof fn lemma_found_when_mentioned(h: Seq<u8>, n: Seq<u8>, i: int)
    requires
        n.len() > 0,
        0 <= i,
        i + n.len() <= h.len(),
        h.subrange(i, i + n.len()) == n,
    ensures
        spec_find(h, n) is Some,
    decreases i,
{
    if exists|j: int| 0 <= j < i && #[trigger] crate::bytes::is_match_at(h, n, j) {
        let j = choose|j: int| 0 <= j < i && #[trigger] crate::bytes::is_match_at(h, n, j);
        lemma_found_when_mentioned(h, n, j);
    } else {
        crate::bytes::lemma_find_is(h, n, i);
    }
}

proof fn lemma_find_iff_mentions(h: Seq<u8>, n: Seq<u8>)
    requires
        n.len() > 0,
    ensures
        spec_find(h, n) is Some <==> mentions(h, n),
{
    if mentions(h, n) {
        let i = choose|i: int|
            0 <= i && i + n.len() <= h.len() && #[trigger] h.subrange(i, i + n.len()) == n;
        lemma_found_when_mentioned(h, n, i);
    } else {
        assert forall|j: int| !#[trigger] crate::bytes::is_match_at(h, n, j) by {
            if crate::bytes::is_match_at(h, n, j) {
                assert(h.subrange(j, j + n.len()) == n);
            }
        }
        crate::bytes::lemma_find_none(h, n);
    }
}

/// Encodings: a brotli variant is served when the client's
/// `Accept-Encoding` mentions `br`; otherwise a gzip variant when it
/// mentions `gzip`, whatever else it mentions; otherwise the plain file.
pub proof fn law_encoding_choice(f: FileView, accept: Seq<u8>)
    ensures
        f.2 is Some && mentions(accept, seq![98u8, 114]) ==> spec_pick(f, accept) == (
            f.2->0,
            Some("br"@),
        ),
        !(f.2 is Some && mentions(accept, seq![98u8, 114])) && f.3 is Some && mentions(
            accept,
            seq![103u8, 122, 105, 112],
        ) ==> spec_pick(f, accept) == (f.3->0, Some("gzip"@)),
        !(f.2 is Some && mentions(accept, seq![98u8, 114])) && !(f.3 is Some && mentions(
            accept,
            seq![103u8, 122, 105, 112],
        )) ==> spec_pick(f, accept) == (f.1, None::<Seq<char>>),
{
    reveal_strlit("br");
    reveal_strlit("gzip");
    assert(ascii("br"@) =~= seq![98u8, 114]);
    assert(ascii("gzip"@) =~= seq![103u8, 122, 105, 112]);
    lemma_find_iff_mentions(accept, seq![98u8, 114]);
    lemma_find_iff_mentions(accept, seq![103u8, 122, 105, 112]);
}

} // verus!
