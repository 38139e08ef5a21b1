//! Emitting an icon document: same-style paths are merged, the header is
//! written, and the document must pass the SVG parser before it is handed out.
use vstd::prelude::*;
use vstd::string::StringExecFns;
use crate::text;

verus! {

/// Format version, part of cache keys and of the emitted metadata.
pub const CACHE_VERSION: u32 = 1;

/// Why no document was emitted.
#[derive(Clone, Debug, PartialEq, Eq)]
pub enum EmitError {
    /// The fragment has no path at all.
    EmptyFragment,
    /// A path has no data.
    EmptyPath,
    /// The parser rejected the document.
    Unparseable(String),
}

/// The message of an error.
pub open spec fn message_of(e: EmitError) -> Seq<char> {
    match e {
        EmitError::EmptyFragment => "fragment has no paths"@,
        EmitError::EmptyPath => "path element with empty d"@,
        EmitError::Unparseable(m) => "usvg rejected the document: "@ + m@,
    }
}

impl EmitError {
    /// The error as text.
    pub fn message(&self) -> (r: String)
        ensures
            r@ == message_of(*self),
    {
        match self {
            EmitError::EmptyFragment => String::from_str("fragment has no paths"),
            EmitError::EmptyPath => String::from_str("path element with empty d"),
            EmitError::Unparseable(m) => {
                let mut s = String::from_str("usvg rejected the document: ");
                s.append(m.as_str());
                s
            },
        }
    }
}

/// Traced artwork: an SVG fragment and the colours it uses.
#[derive(Clone, Debug, PartialEq, Eq)]
pub struct IconVectors {
    /// SVG path elements.
    pub svg: String,
    /// Colours, in paint order.
    pub palette: Vec<[u8; 4]>,
}

// ---- scanning -------------------------------------------------------------------------

/// Letters and digits of any script, as Unicode classes them.
pub uninterp spec fn is_alphanumeric(c: char) -> bool;

/// Letters and digits: of the first 128 characters the digits and the letters
/// of both cases, of the others those that Unicode classes so.
pub open spec fn is_word_char(c: char) -> bool {
    if (c as u32) < 128 {
        '0' <= c <= '9' || 'a' <= c <= 'z' || 'A' <= c <= 'Z'
    } else {
        is_alphanumeric(c)
    }
}

/// Calls `char::is_alphanumeric`. Of the first 128 characters exactly the
/// letters and the digits are alphanumeric; of the others the classes of Unicode
/// decide.
#[verifier::external_body]
fn alphanumeric(c: char) -> (r: bool)
    ensures
        (c as u32) < 128 ==> r == ('0' <= c <= '9' || 'a' <= c <= 'z' || 'A' <= c <= 'Z'),
        (c as u32) >= 128 ==> r == is_alphanumeric(c),
{
    c.is_alphanumeric()
}

/// A scanned path: its data, and every other attribute.
pub struct ScannedPath {
    /// Path data.
    pub d: Vec<char>,
    /// The other attributes.
    pub style: Vec<char>,
}

/// The contents of a scanned path.
pub type PathText = (Seq<char>, Seq<char>);

/// `needle` stands at `k`, and no letter, digit or dash stands before it.
pub open spec fn stands_free(attrs: Seq<char>, needle: Seq<char>, k: int) -> bool {
    text::matches_at(attrs, needle, k) && !(k > 0 && (is_word_char(attrs[k - 1]) || attrs[k - 1]
        == '-'))
}

/// The first place from `i` on where `needle` stands free.
pub open spec fn first_free(attrs: Seq<char>, needle: Seq<char>, i: int) -> Option<int>
    decreases attrs.len() + 1 - i,
{
    if i < 0 || i + needle.len() > attrs.len() {
        None
    } else if stands_free(attrs, needle, i) {
        Some(i)
    } else {
        first_free(attrs, needle, i + 1)
    }
}

/// The start of the attribute `name` in `attrs`, and the span of its value:
/// the first place where `name="` stands with no letter, digit or dash before
/// it.
pub open spec fn attribute_of(attrs: Seq<char>, name: Seq<char>) -> Option<(int, int, int)> {
    let needle = name + seq!['=', '"'];
    match first_free(attrs, needle, 0) {
        None => None,
        Some(start) => match text::find_from(attrs, seq!['"'], start + needle.len()) {
            None => None,
            Some(end) => Some((start, start + needle.len(), end)),
        },
    }
}

/// Where `needle` does not stand, it does not stand free.
proof fn free_is_found(attrs: Seq<char>, needle: Seq<char>, i: int)
    requires
        0 <= i,
    ensures
        match text::find_from(attrs, needle, i) {
            Some(k) => first_free(attrs, needle, i) == first_free(attrs, needle, k),
            None => first_free(attrs, needle, i) is None,
        },
    decreases attrs.len() + 1 - i,
{
    if i + needle.len() <= attrs.len() && !text::matches_at(attrs, needle, i) {
        free_is_found(attrs, needle, i + 1);
    }
}

/// The attributes of a path without the closing slash.
pub open spec fn bare_style(s: Seq<char>) -> Seq<char> {
    text::trimmed(text::trim_end_of(s, '/'))
}

/// The path that a trimmed attribute text describes.
pub open spec fn path_of(inner: Seq<char>) -> PathText {
    match attribute_of(inner, "d"@) {
        Some((start, from, end)) => (
            inner.subrange(from, end),
            bare_style(
                text::trimmed(
                    text::trimmed(inner.subrange(0, start)) + seq![' '] + text::trimmed(
                        inner.subrange(end + 1, inner.len() as int),
                    ),
                ),
            ),
        ),
        None => (Seq::empty(), bare_style(inner)),
    }
}

/// The paths of a fragment from position `i` on.
pub open spec fn paths_from(s: Seq<char>, i: int) -> Seq<PathText>
    decreases s.len() - i,
{
    match text::find_from(s, "<path"@, i) {
        None => Seq::empty(),
        Some(pos) => match text::find_from(s, seq!['>'], pos + "<path"@.len()) {
            None => Seq::empty(),
            Some(gt) => if i <= pos && pos + "<path"@.len() <= gt < s.len() {
                seq![path_of(text::trimmed(s.subrange(pos + "<path"@.len(), gt)))] + paths_from(
                    s,
                    gt + 1,
                )
            } else {
                Seq::empty()
            },
        },
    }
}

/// The contents of a list of scanned paths.
pub open spec fn texts_of(v: Seq<ScannedPath>) -> Seq<PathText> {
    Seq::new(v.len(), |i: int| (v[i].d@, v[i].style@))
}

fn one_char(c: char) -> (r: Vec<char>)
    ensures
        r@ == seq![c],
{
    let mut v: Vec<char> = Vec::new();
    v.push(c);
    assert(v@ =~= seq![c]);
    v
}

/// Finds the first place from `from` on where `needle` stands with no letter,
/// digit or dash before it.
pub fn find_free(attrs: &Vec<char>, needle: &Vec<char>, from: usize) -> (r: Option<usize>)
    requires
        needle@.len() > 0,
    ensures
        match r {
            Some(k) => first_free(attrs@, needle@, from as int) == Some(k as int) && from <= k && k
                + needle@.len() <= attrs@.len(),
            None => first_free(attrs@, needle@, from as int) is None,
        },
{
    let n: usize = attrs.len();
    let mut i: usize = from;
    while i <= n
        invariant
            n == attrs@.len(),
            from <= i,
            needle@.len() > 0,
            first_free(attrs@, needle@, from as int) == first_free(attrs@, needle@, i as int),
        decreases n + 1 - i,
    {
        proof {
            free_is_found(attrs@, needle@, i as int);
            text::found_stands(attrs@, needle@, i as int);
        }
        let start: usize = match text::find(attrs, needle, i) {
            None => {
                return None;
            },
            Some(k) => k,
        };
        if start == 0 || !(alphanumeric(attrs[start - 1]) || attrs[start - 1] == '-') {
            return Some(start);
        }
        i = start + 1;
    }
    None
}

/// Finds an attribute.
pub fn extract_attr(attrs: &Vec<char>, name: &str) -> (r: Option<(usize, usize, usize)>)
    ensures
        match r {
            Some((a, b, c)) => attribute_of(attrs@, name@) == Some((a as int, b as int, c as int)) && a
                <= b <= c < attrs@.len(),
            None => attribute_of(attrs@, name@) is None,
        },
{
    let mut needle = text::chars_of(name);
    needle.push('=');
    needle.push('"');
    assert(needle@ =~= name@ + seq!['=', '"']);
    let n: usize = attrs.len();
    assert(n == attrs@.len());
    let start: usize = match find_free(attrs, &needle, 0) {
        None => {
            return None;
        },
        Some(k) => k,
    };
    let from: usize = start + needle.len();
    let quote = one_char('"');
    match text::find(attrs, &quote, from) {
        None => None,
        Some(end) => Some((start, from, end)),
    }
}

fn scan_one(inner: &Vec<char>) -> (r: ScannedPath)
    ensures
        (r.d@, r.style@) == path_of(inner@),
{
    let n: usize = inner.len();
    match extract_attr(inner, "d") {
        Some((start, from, end)) => {
            let d = text::part(inner, from, end);
            let head = text::part(inner, 0, start);
            let tail = text::part(inner, end + 1, n);
            let mut all = text::trim(&head);
            all.push(' ');
            let t = text::trim(&tail);
            text::extend(&mut all, &t);
            assert(all@ =~= text::trimmed(head@) + seq![' '] + text::trimmed(tail@));
            let all = text::trim(&all);
            let bare = text::trim_end_matches(&all, '/');
            let style = text::trim(&bare);
            ScannedPath { d, style }
        },
        None => {
            let bare = text::trim_end_matches(inner, '/');
            let style = text::trim(&bare);
            let d: Vec<char> = Vec::new();
            assert(d@ =~= Seq::<char>::empty());
            ScannedPath { d, style }
        },
    }
}

/// Extracts every path element of a fragment; everything else is dropped. A path
/// without data is kept with empty data.
pub fn scan_paths(fragment: &Vec<char>) -> (r: Vec<ScannedPath>)
    ensures
        texts_of(r@) == paths_from(fragment@, 0),
{
    let n: usize = fragment.len();
    let opening = text::chars_of("<path");
    let closing = one_char('>');
    let mut out: Vec<ScannedPath> = Vec::new();
    let mut i: usize = 0;
    assert(texts_of(out@) =~= Seq::<PathText>::empty());
    assert(Seq::<PathText>::empty() + paths_from(fragment@, 0) =~= paths_from(fragment@, 0));
    while i < n
        invariant
            i <= n,
            n == fragment@.len(),
            opening@ == "<path"@,
            closing@ == seq!['>'],
            texts_of(out@) + paths_from(fragment@, i as int) == paths_from(fragment@, 0),
        decreases n - i,
    {
        let pos: usize = match text::find(fragment, &opening, i) {
            Some(k) => k,
            None => {
                assert(texts_of(out@) + Seq::<PathText>::empty() =~= texts_of(out@));
                return out;
            },
        };
        let after: usize = pos + opening.len();
        let gt: usize = match text::find(fragment, &closing, after) {
            Some(k) => k,
            None => {
                assert(texts_of(out@) + Seq::<PathText>::empty() =~= texts_of(out@));
                return out;
            },
        };
        let ghost out0 = out@;
        let raw = text::part(fragment, after, gt);
        let inner = text::trim(&raw);
        let p = scan_one(&inner);
        out.push(p);
        proof {
            let one = path_of(text::trimmed(fragment@.subrange(after as int, gt as int)));
            assert(texts_of(out@) =~= texts_of(out0).push(one));
            let rest = paths_from(fragment@, gt + 1);
            assert(paths_from(fragment@, i as int) == seq![one] + rest);
            assert(texts_of(out0) + (seq![one] + rest) =~= texts_of(out0).push(one) + rest);
        }
        i = gt + 1;
    }
    proof {
        reveal_strlit("<path");
        assert(paths_from(fragment@, n as int) =~= Seq::<PathText>::empty());
        assert(texts_of(out@) + Seq::<PathText>::empty() =~= texts_of(out@));
    }
    out
}

// ---- merging --------------------------------------------------------------------------

/// Where the run of paths that share the style of path `i` ends.
pub open spec fn run_end(ps: Seq<PathText>, i: int, j: int) -> int
    decreases ps.len() - j,
{
    if j < ps.len() && ps[j].1 == ps[i].1 {
        run_end(ps, i, j + 1)
    } else {
        j
    }
}

/// The data of paths `i..j`, separated by blanks.
pub open spec fn joined_data(ps: Seq<PathText>, i: int, j: int) -> Seq<char>
    decreases j - i,
{
    if j <= i {
        Seq::empty()
    } else if j == i + 1 {
        ps[i].0
    } else {
        joined_data(ps, i, j - 1) + seq![' '] + ps[j - 1].0
    }
}

/// One path element.
pub open spec fn path_element(d: Seq<char>, style: Seq<char>) -> Seq<char> {
    "<path d=\""@ + d + "\""@ + (if style.len() > 0 {
        " "@ + style
    } else {
        Seq::empty()
    }) + "/>"@
}

/// The merged elements from path `i` on.
pub open spec fn merged_from(ps: Seq<PathText>, i: int) -> Seq<char>
    decreases ps.len() - i,
{
    if i < 0 || i >= ps.len() {
        Seq::empty()
    } else {
        let j = run_end(ps, i, i + 1);
        if i < j <= ps.len() {
            path_element(joined_data(ps, i, j), ps[i].1) + merged_from(ps, j)
        } else {
            Seq::empty()
        }
    }
}

/// Some path has no data.
pub open spec fn has_empty_path(ps: Seq<PathText>) -> bool {
    exists|i: int| 0 <= i < ps.len() && (#[trigger] ps[i]).0.len() == 0
}

/// `r` is the merged body of a fragment.
pub open spec fn is_merged(fragment: Seq<char>, r: Result<Seq<char>, EmitError>) -> bool {
    let ps = paths_from(fragment, 0);
    if ps.len() == 0 {
        r == Err::<Seq<char>, EmitError>(EmitError::EmptyFragment)
    } else if has_empty_path(ps) {
        r == Err::<Seq<char>, EmitError>(EmitError::EmptyPath)
    } else {
        r == Ok::<Seq<char>, EmitError>(merged_from(ps, 0))
    }
}

proof fn run_end_bounds(ps: Seq<PathText>, i: int, j: int)
    requires
        j <= ps.len(),
    ensures
        j <= run_end(ps, i, j) <= ps.len(),
    decreases ps.len() - j,
{
    if j < ps.len() && ps[j].1 == ps[i].1 {
        run_end_bounds(ps, i, j + 1);
    }
}

/// The contents of a result.
pub open spec fn text_result(r: Result<Vec<char>, EmitError>) -> Result<Seq<char>, EmitError> {
    match r {
        Ok(v) => Ok(v@),
        Err(e) => Err(e),
    }
}

/// Merges runs of paths that share a style.
pub fn merge_same_style(fragment: &Vec<char>) -> (r: Result<Vec<char>, EmitError>)
    ensures
        is_merged(fragment@, text_result(r)),
{
    let scanned = scan_paths(fragment);
    let ghost ps = texts_of(scanned@);
    let n: usize = scanned.len();
    if n == 0 {
        return Err(EmitError::EmptyFragment);
    }
    let mut out: Vec<char> = Vec::new();
    let mut i: usize = 0;
    assert(Seq::<char>::empty() + merged_from(ps, 0) =~= merged_from(ps, 0));
    while i < n
        invariant
            i <= n,
            n == scanned@.len(),
            n > 0,
            ps == texts_of(scanned@),
            ps == paths_from(fragment@, 0),
            forall|k: int| 0 <= k < i ==> (#[trigger] ps[k]).0.len() > 0,
            out@ + merged_from(ps, i as int) == merged_from(ps, 0),
        decreases n - i,
    {
        let ghost start = i as int;
        let ghost out0 = out@;
        let mut d: Vec<char> = Vec::new();
        let first: usize = i;
        proof {
            run_end_bounds(ps, start, start + 1);
        }
        assert(run_end(ps, start, start) == run_end(ps, start, start + 1));
        while i < n && text::same(&scanned[i].style, &scanned[first].style)
            invariant
                first <= i <= n,
                first < n,
                start == first,
                n == scanned@.len(),
                ps == texts_of(scanned@),
                ps == paths_from(fragment@, 0),
                forall|k: int| 0 <= k < i ==> (#[trigger] ps[k]).0.len() > 0,
                d@ == joined_data(ps, start, i as int),
                i > first ==> d@.len() > 0,
                run_end(ps, start, start + 1) == run_end(ps, start, i as int),
            decreases n - i,
        {
            assert(ps[i as int] == (scanned@[i as int].d@, scanned@[i as int].style@));
            if scanned[i].d.len() == 0 {
                assert(has_empty_path(ps));
                return Err(EmitError::EmptyPath);
            }
            let ghost d0 = d@;
            if i > first {
                d.push(' ');
            }
            text::extend(&mut d, &scanned[i].d);
            proof {
                if i > first {
                    assert(d@ =~= d0 + seq![' '] + ps[i as int].0);
                } else {
                    assert(d@ =~= ps[i as int].0);
                }
                assert(ps[first as int].1 == scanned@[first as int].style@);
            }
            i = i + 1;
        }
        proof {
            if i < n {
                assert(ps[i as int].1 == scanned@[i as int].style@);
            }
            assert(ps[first as int].1 == scanned@[first as int].style@);
        }
        text::extend_str(&mut out, "<path d=\"");
        text::extend(&mut out, &d);
        text::extend_str(&mut out, "\"");
        if scanned[first].style.len() > 0 {
            text::extend_str(&mut out, " ");
            text::extend(&mut out, &scanned[first].style);
        }
        text::extend_str(&mut out, "/>");
        proof {
            let el = path_element(d@, ps[start].1);
            assert(out@ =~= out0 + el);
            assert(merged_from(ps, start) == el + merged_from(ps, i as int));
            assert(out0 + (el + merged_from(ps, i as int)) =~= out0 + el + merged_from(ps, i as int));
        }
    }
    proof {
        assert(out@ + merged_from(ps, n as int) =~= out@);
        assert(!has_empty_path(ps));
    }
    Ok(out)
}

// ---- the document ---------------------------------------------------------------------

/// The document around a body.
pub open spec fn document_of(body: Seq<char>, w: u32, h: u32, preset: Seq<char>, stroke_only: bool) -> Seq<char> {
    let wt = text::decimal(w as nat);
    let ht = text::decimal(h as nat);
    "<svg xmlns=\"http://www.w3.org/2000/svg\""@ + " width=\""@ + wt + "\" height=\""@ + ht
        + "\" viewBox=\"0 0 "@ + wt + " "@ + ht + "\">"@ + "<title>icon</title>"@
        + "<desc>Icon Forge preset="@ + preset + (if stroke_only {
        " stroke-only</desc>"@
    } else {
        "</desc>"@
    }) + "<metadata>icon-forge v"@ + text::decimal(CACHE_VERSION as nat) + " preset="@ + preset
        + " paths="@ + text::decimal(text::count_from(body, "<path"@, 0) as nat) + "</metadata>"@ + body
        + "</svg>"@
}

/// The document of a fragment before it is parsed, or why there is none.
pub fn assemble(v: &IconVectors, w: u32, h: u32, preset: &str, stroke_only: bool) -> (r: Result<String, EmitError>)
    ensures
        exists|body: Result<Seq<char>, EmitError>| #[trigger]
            is_merged(v.svg@, body) && match body {
                Ok(b) => r is Ok && (r->Ok_0)@ == document_of(b, w, h, preset@, stroke_only),
                Err(e) => r == Err::<String, EmitError>(e),
            },
{
    let fragment = text::chars_of(v.svg.as_str());
    let merged = merge_same_style(&fragment);
    let ghost body_result = text_result(merged);
    assert(is_merged(v.svg@, body_result));
    let body = match merged {
        Ok(b) => b,
        Err(e) => {
            return Err(e);
        },
    };
    let needle = text::chars_of("<path");
    proof {
        reveal_strlit("<path");
    }
    let paths: usize = text::count(&body, &needle);
    let mut doc = String::from_str("<svg xmlns=\"http://www.w3.org/2000/svg\"");
    doc.append(" width=\"");
    text::push_decimal(&mut doc, w as u64);
    doc.append("\" height=\"");
    text::push_decimal(&mut doc, h as u64);
    doc.append("\" viewBox=\"0 0 ");
    text::push_decimal(&mut doc, w as u64);
    doc.append(" ");
    text::push_decimal(&mut doc, h as u64);
    doc.append("\">");
    doc.append("<title>icon</title>");
    doc.append("<desc>Icon Forge preset=");
    doc.append(preset);
    if stroke_only {
        doc.append(" stroke-only</desc>");
    } else {
        doc.append("</desc>");
    }
    doc.append("<metadata>icon-forge v");
    text::push_decimal(&mut doc, CACHE_VERSION as u64);
    doc.append(" preset=");
    doc.append(preset);
    doc.append(" paths=");
    text::push_decimal(&mut doc, paths as u64);
    doc.append("</metadata>");
    let tail = text::string_of(&body);
    doc.append(tail.as_str());
    doc.append("</svg>");
    Ok(doc)
}

// ---- the parser -------------------------------------------------------------------------

/// Why the SVG parser rejects a document; `None` when it accepts it.
pub uninterp spec fn svg_objection(doc: Seq<char>) -> Option<Seq<char>>;

/// Calls `usvg::Tree::from_str` with its default options. Whether a document is
/// accepted, and the message when it is not, depend on its text alone.
#[verifier::external_body]
pub(crate) fn parse_svg(doc: &str) -> (r: Result<(), String>)
    ensures
        match r {
            Ok(_) => svg_objection(doc@) is None,
            Err(m) => svg_objection(doc@) == Some(m@),
        },
{
    match resvg::usvg::Tree::from_str(doc, &resvg::usvg::Options::default()) {
        Ok(_) => Ok(()),
        Err(e) => Err(e.to_string()),
    }
}

/// `r` is the verdict on a document.
pub open spec fn is_verdict(doc: Seq<char>, r: Result<(), EmitError>) -> bool {
    match svg_objection(doc) {
        None => r is Ok,
        Some(m) => match r {
            Err(EmitError::Unparseable(t)) => t@ == m,
            _ => false,
        },
    }
}

/// Parses a document; one that does not parse never leaves the pipeline.
pub fn validate(doc: &str) -> (r: Result<(), EmitError>)
    ensures
        is_verdict(doc@, r),
{
    match parse_svg(doc) {
        Ok(_) => Ok(()),
        Err(m) => Err(EmitError::Unparseable(m)),
    }
}

/// Hands a document out only when the verdict on it is good.
pub fn admit_document(doc: Result<String, EmitError>, verdict: Result<(), EmitError>) -> (r: Result<String, EmitError>)
    ensures
        match doc {
            Err(e) => r == Err::<String, EmitError>(e),
            Ok(d) => match verdict {
                Ok(_) => r == Ok::<String, EmitError>(d),
                Err(e) => r == Err::<String, EmitError>(e),
            },
        },
{
    match doc {
        Err(e) => Err(e),
        Ok(d) => match verdict {
            Ok(_) => Ok(d),
            Err(e) => Err(e),
        },
    }
}

/// `r` is what is emitted for a fragment.
pub open spec fn is_emitted(v: IconVectors, w: u32, h: u32, preset: Seq<char>, stroke_only: bool, r: Result<String, EmitError>) -> bool {
    exists|body: Result<Seq<char>, EmitError>| #[trigger]
        is_merged(v.svg@, body) && match body {
            Err(e) => r == Err::<String, EmitError>(e),
            Ok(b) => match svg_objection(document_of(b, w, h, preset, stroke_only)) {
                None => match r {
                    Ok(d) => d@ == document_of(b, w, h, preset, stroke_only),
                    Err(_) => false,
                },
                Some(m) => match r {
                    Err(EmitError::Unparseable(t)) => t@ == m,
                    _ => false,
                },
            },
        }
}

/// Builds the document of an icon and has the parser check it.
pub fn emit_svg(v: &IconVectors, w: u32, h: u32, preset: &str, stroke_only: bool) -> (r: Result<String, EmitError>)
    ensures
        is_emitted(*v, w, h, preset@, stroke_only, r),
{
    match assemble(v, w, h, preset, stroke_only) {
        Err(e) => Err(e),
        Ok(doc) => {
            let verdict = validate(doc.as_str());
            admit_document(Ok(doc), verdict)
        },
    }
}

/// A document that the parser rejects is never emitted.
pub proof fn emitted_documents_parse(v: IconVectors, w: u32, h: u32, preset: Seq<char>, stroke_only: bool, r: Result<String, EmitError>)
    requires
        is_emitted(v, w, h, preset, stroke_only, r),
    ensures
        match r {
            Ok(d) => svg_objection(d@) is None,
            Err(_) => true,
        },
{
}

/// A fragment has one document, or one reason why there is none.
pub proof fn emission_is_determined(
    v: IconVectors,
    w: u32,
    h: u32,
    preset: Seq<char>,
    stroke_only: bool,
    a: Result<String, EmitError>,
    b: Result<String, EmitError>,
)
    requires
        is_emitted(v, w, h, preset, stroke_only, a),
        is_emitted(v, w, h, preset, stroke_only, b),
    ensures
        match (a, b) {
            (Ok(c), Ok(d)) => c@ == d@,
            (Err(c), Err(d)) => message_of(c) == message_of(d),
            _ => false,
        },
{
}

proof fn one_style_runs_on(ps: Seq<PathText>, j: int)
    requires
        0 < j <= ps.len(),
        forall|i: int| 0 <= i < ps.len() ==> (#[trigger] ps[i]).1 == ps[0].1,
    ensures
        run_end(ps, 0, j) == ps.len(),
    decreases ps.len() - j,
{
    if j < ps.len() {
        assert(ps[j].1 == ps[0].1);
        one_style_runs_on(ps, j + 1);
    }
}

/// Paths of one style become one element, their data joined with blanks.
pub proof fn one_style_is_one_element(ps: Seq<PathText>, d: Seq<char>, e: PathText)
    requires
        ps.len() > 0,
        forall|i: int| 0 <= i < ps.len() ==> (#[trigger] ps[i]).1 == e.1,
        merged_from(ps, 0) == "<path d=\""@ + d + "\""@ + (if e.1.len() > 0 {
            " "@ + e.1
        } else {
            Seq::empty()
        }) + "/>"@,
        d == joined_data(ps, 0, ps.len() as int),
    ensures
        merged_from(ps.push(e), 0) == "<path d=\""@ + (d + " "@ + e.0) + "\""@ + (if e.1.len() > 0 {
            " "@ + e.1
        } else {
            Seq::empty()
        }) + "/>"@,
{
    let qs = ps.push(e);
    let n = qs.len() as int;
    assert forall|i: int| 0 <= i < qs.len() implies (#[trigger] qs[i]).1 == qs[0].1 by {
        if i < ps.len() {
            assert(ps[i].1 == e.1);
        }
        assert(ps[0].1 == e.1);
    }
    one_style_runs_on(qs, 1);
    data_before(ps, qs, n - 1);
    reveal_strlit(" ");
    assert(" "@ =~= seq![' ']);
    assert(qs[0].1 == e.1);
    assert(merged_from(qs, n) == Seq::<char>::empty());
    assert(joined_data(qs, 0, n) =~= d + " "@ + e.0);
    assert(merged_from(qs, 0) =~= path_element(joined_data(qs, 0, n), e.1));
}

proof fn data_before(a: Seq<PathText>, b: Seq<PathText>, j: int)
    requires
        0 <= j <= a.len(),
        j <= b.len(),
        forall|i: int| 0 <= i < j ==> #[trigger] a[i] == b[i],
    ensures
        joined_data(a, 0, j) == joined_data(b, 0, j),
    decreases j,
{
    if j > 1 {
        data_before(a, b, j - 1);
    }
}

/// A path of another style than the next is an element of its own.
pub proof fn other_styles_stay_apart(ps: Seq<PathText>, i: int)
    requires
        0 <= i < ps.len(),
        i + 1 == ps.len() || ps[i + 1].1 != ps[i].1,
    ensures
        merged_from(ps, i) == "<path d=\""@ + ps[i].0 + "\""@ + (if ps[i].1.len() > 0 {
            " "@ + ps[i].1
        } else {
            Seq::empty()
        }) + "/>"@ + merged_from(ps, i + 1),
{
    assert(run_end(ps, i, i + 1) == i + 1);
}

pub(crate) proof fn free_is_first(attrs: Seq<char>, needle: Seq<char>, i: int)
    requires
        0 <= i,
    ensures
        match first_free(attrs, needle, i) {
            Some(k) => i <= k && stands_free(attrs, needle, k) && forall|j: int|
                i <= j < k ==> !#[trigger] stands_free(attrs, needle, j),
            None => forall|j: int| i <= j ==> !#[trigger] stands_free(attrs, needle, j),
        },
    decreases attrs.len() + 1 - i,
{
    if i + needle.len() <= attrs.len() && !stands_free(attrs, needle, i) {
        free_is_first(attrs, needle, i + 1);
        assert forall|j: int| i <= j implies (match first_free(attrs, needle, i) {
            Some(k) => j < k ==> !#[trigger] stands_free(attrs, needle, j),
            None => !stands_free(attrs, needle, j),
        }) by {
            if j > i {
                match first_free(attrs, needle, i + 1) {
                    Some(k) => {},
                    None => {},
                }
            }
        }
    }
}

/// An attribute is its name, an equals sign and a quoted value; the name is not the
/// end of a longer name, and the value goes up to the next quote.
pub proof fn attributes_are_whole_names(attrs: Seq<char>, name: Seq<char>, start: int, from: int, end: int)
    requires
        attribute_of(attrs, name) == Some((start, from, end)),
    ensures
        0 <= start,
        from == start + name.len() + 2,
        from <= end < attrs.len(),
        attrs.subrange(start, start + name.len()) == name,
        attrs[from - 2] == '=',
        attrs[from - 1] == '"',
        attrs[end] == '"',
        forall|k: int| from <= k < end ==> #[trigger] attrs[k] != '"',
        start > 0 ==> attrs[start - 1] != '-' && !('a' <= attrs[start - 1] <= 'z') && !('A' <= attrs[start - 1] <= 'Z')
            && !('0' <= attrs[start - 1] <= '9'),
{
    let needle = name + seq!['=', '"'];
    free_is_first(attrs, needle, 0);
    assert(stands_free(attrs, needle, start));
    assert(attrs.subrange(start, start + needle.len()) =~= needle);
    text::found_stands(attrs, seq!['"'], from);
    assert(text::matches_at(attrs, seq!['"'], end));
    assert(attrs.subrange(end, end + 1)[0] == attrs[end]);
    assert(attrs.subrange(start, start + name.len()) =~= name) by {
        assert forall|k: int| 0 <= k < name.len() implies attrs.subrange(start, start + name.len())[k] == name[k] by {
            assert(attrs.subrange(start, start + needle.len())[k] == needle[k]);
        }
    }
    assert(attrs.subrange(start, start + needle.len())[name.len() as int] == needle[name.len() as int]);
    assert(attrs.subrange(start, start + needle.len())[name.len() as int + 1] == needle[name.len() as int + 1]);
    assert forall|k: int| from <= k < end implies #[trigger] attrs[k] != '"' by {
        assert(!text::matches_at(attrs, seq!['"'], k));
        if attrs[k] == '"' {
            assert(attrs.subrange(k, k + 1) =~= seq!['"']);
        }
    }
}

proof fn character_is_found(s: Seq<char>, c: char, i: int, k: int)
    requires
        0 <= i <= k < s.len(),
        s[k] == c,
        forall|j: int| i <= j < k ==> #[trigger] s[j] != c,
    ensures
        text::find_from(s, seq![c], i) == Some(k),
{
    text::found_stands(s, seq![c], i);
    assert(s.subrange(k, k + 1) =~= seq![c]);
    assert(text::matches_at(s, seq![c], k));
    match text::find_from(s, seq![c], i) {
        Some(t) => {
            assert(s.subrange(t, t + 1)[0] == s[t]);
            assert(seq![c][0] == c);
        },
        None => {},
    }
}

proof fn space_is_trimmed(s: Seq<char>, a: int, b: int)
    requires
        0 <= a < b <= s.len(),
        forall|i: int| 0 <= i < a || b <= i < s.len() ==> text::is_space(#[trigger] s[i]),
        !text::is_space(s[a]),
        !text::is_space(s[b - 1]),
    ensures
        text::trimmed(s) == s.subrange(a, b),
{
    let (x, y) = text::trimming_takes_space_off_the_ends(s);
    assert(x <= a && b <= y);
    if x < a {
        assert(text::is_space(s[x]));
    }
    if b < y {
        assert(text::is_space(s[y - 1]));
    }
}

/// The text of a path element, as it is written: data, style, slash.
pub open spec fn written_path(d: Seq<char>, style: Seq<char>) -> Seq<char> {
    seq!['<', 'p', 'a', 't', 'h', ' ', 'd', '=', '"'] + d + seq!['"', ' '] + style + seq!['/', '>']
}

proof fn written_attributes_are_told_apart(d: Seq<char>, style: Seq<char>)
    requires
        forall|i: int| 0 <= i < d.len() ==> #[trigger] d[i] != '"',
        style.len() > 0,
        !text::is_space(style[0]),
        !text::is_space(style[style.len() - 1]),
        style[style.len() - 1] != '/',
    ensures
        path_of(seq!['d', '=', '"'] + d + seq!['"', ' '] + style + seq!['/']) == (d, style),
{
    let inner = seq!['d', '=', '"'] + d + seq!['"', ' '] + style + seq!['/'];
    let n = d.len() as int;
    let m = style.len() as int;
    let needle = "d"@ + seq!['=', '"'];
    reveal_strlit("d");
    assert(inner.len() == n + m + 6);
    assert(needle.len() == 3 && needle[0] == 'd' && needle[1] == '=' && needle[2] == '"');
    assert(inner.subrange(0, 3) =~= needle);
    assert(first_free(inner, needle, 0) == Some(0int));
    assert forall|j: int| 3 <= j < 3 + n implies #[trigger] inner[j] != '"' by {
        assert(inner[j] == d[j - 3]);
    }
    assert(inner[3 + n] == '"');
    character_is_found(inner, '"', 3, 3 + n);
    assert(inner.subrange(3, 3 + n) =~= d);
    text::plain_space_is_known(' ');
    text::plain_space_is_known('/');
    let head = inner.subrange(0, 0);
    let (x, y) = text::trimming_takes_space_off_the_ends(head);
    assert(text::trimmed(head) =~= Seq::<char>::empty());
    let tail = inner.subrange(4 + n, inner.len() as int);
    assert(tail =~= seq![' '] + style + seq!['/']);
    assert(tail[1] == style[0] && tail[m + 1] == '/');
    space_is_trimmed(tail, 1, m + 2);
    let rest = style + seq!['/'];
    assert(tail.subrange(1, m + 2) =~= rest);
    let joined = text::trimmed(head) + seq![' '] + rest;
    assert(joined =~= seq![' '] + style + seq!['/']);
    space_is_trimmed(joined, 1, m + 2);
    assert(joined.subrange(1, m + 2) =~= rest);
    text::trimming_takes_the_character_off_the_end(rest, '/');
    let cut = text::trim_end_of(rest, '/');
    assert(rest[m] == '/' && rest[m - 1] == style[m - 1]);
    if cut.len() == m + 1 {
        assert(cut[m] == rest[m]);
    }
    assert(cut.len() == m);
    assert(cut =~= style);
    space_is_trimmed(style, 0, m);
    assert(style.subrange(0, m) =~= style);
}

/// A written path element is read back: its data, and the rest as its style; what
/// stands behind it is read from there on.
pub proof fn written_paths_are_read_back(d: Seq<char>, style: Seq<char>, behind: Seq<char>)
    requires
        forall|i: int| 0 <= i < d.len() ==> #[trigger] d[i] != '"' && d[i] != '>',
        forall|i: int| 0 <= i < style.len() ==> #[trigger] style[i] != '>',
        style.len() > 0,
        !text::is_space(style[0]),
        !text::is_space(style[style.len() - 1]),
        style[style.len() - 1] != '/',
    ensures
        ({
            let s = written_path(d, style) + behind;
            paths_from(s, 0) == seq![(d, style)] + paths_from(s, d.len() as int + style.len() + 13)
        }),
{
    let s = written_path(d, style) + behind;
    let n = d.len() as int;
    let m = style.len() as int;
    reveal_strlit("<path");
    assert(written_path(d, style).len() == n + m + 13);
    assert(s.subrange(0, 5) =~= "<path"@);
    assert(text::find_from(s, "<path"@, 0) == Some(0int));
    let gt = n + m + 12;
    assert(s[gt] == '>');
    assert forall|j: int| 5 <= j < gt implies #[trigger] s[j] != '>' by {
        if j >= 9 && j < 9 + n {
            assert(s[j] == d[j - 9]);
        } else if j >= 11 + n && j < 11 + n + m {
            assert(s[j] == style[j - 11 - n]);
        }
    }
    character_is_found(s, '>', 5, gt);
    let between = s.subrange(5, gt);
    let inner = seq!['d', '=', '"'] + d + seq!['"', ' '] + style + seq!['/'];
    assert(between =~= seq![' '] + inner);
    text::plain_space_is_known(' ');
    text::plain_space_is_known('d');
    text::plain_space_is_known('/');
    assert(inner.len() == n + m + 6);
    assert(between[1] == 'd' && between[n + m + 6] == '/');
    space_is_trimmed(between, 1, n + m + 7);
    assert(between.subrange(1, n + m + 7) =~= inner);
    written_attributes_are_told_apart(d, style);
}

/// Where a fragment is refused: it has no path, or a path without data.
pub proof fn fragments_without_outlines_are_refused(fragment: Seq<char>, r: Result<Seq<char>, EmitError>)
    requires
        is_merged(fragment, r),
    ensures
        ({
            let ps = paths_from(fragment, 0);
            &&& r is Ok == (ps.len() > 0 && forall|i: int| 0 <= i < ps.len() ==> (#[trigger] ps[i]).0.len() > 0)
            &&& ps.len() == 0 ==> r == Err::<Seq<char>, EmitError>(EmitError::EmptyFragment)
            &&& ps.len() > 0 && r is Err ==> r == Err::<Seq<char>, EmitError>(EmitError::EmptyPath)
        }),
{
}

} // verus!
