//! Serving the built web UI from the backend's own origin: which file a
//! `GET` path names, and the type it is served as. Paths that name no file
//! fall back to the UI's `index.html`, so client-side routes load the app.

use vstd::prelude::*;

use crate::text::chars_of;
use crate::text::lemma_split_on_join;
use crate::text::lemma_split_run_single;
use crate::text::split_on;
use crate::text::split_run;
use crate::text::str_eq;
use crate::text::string_from;
use crate::text::string_of;

verus! {

/// What a `GET` path asks for.
#[derive(Debug)]
pub enum StaticTarget {
    /// The UI's entry page.
    Index,
    /// The file at these path segments below the UI's directory.
    File(Vec<String>),
}

/// Path segments that name nothing: empty ones and `.`.
pub open spec fn is_blank_segment(seg: Seq<char>) -> bool {
    seg.len() == 0 || seg == seq!['.']
}

/// Segments that would leave the UI's directory: `..`, and any holding a
/// backslash or a colon (a drive or path prefix on Windows).
pub open spec fn is_escaping_segment(seg: Seq<char>) -> bool {
    seg == seq!['.', '.'] || seg.contains('\\') || seg.contains(':')
}

/// The segments that name something, in order.
pub open spec fn kept_segments(ps: Seq<Seq<char>>) -> Seq<Seq<char>>
    decreases ps.len(),
{
    if ps.len() == 0 {
        Seq::<Seq<char>>::empty()
    } else if is_blank_segment(ps.last()) {
        kept_segments(ps.drop_last())
    } else {
        kept_segments(ps.drop_last()).push(ps.last())
    }
}

pub open spec fn any_escaping(ps: Seq<Seq<char>>) -> bool {
    exists|k: int| 0 <= k < ps.len() && is_escaping_segment(#[trigger] ps[k])
}

/// The file a path names: its non-blank segments, unless there are none or
/// one of them would leave the directory, in which case the entry page.
pub open spec fn static_target_of(path: Seq<char>) -> Option<Seq<Seq<char>>> {
    let segs = kept_segments(split_on(path, '/'));
    if segs.len() == 0 || any_escaping(segs) {
        None
    } else {
        Some(segs)
    }
}

pub open spec fn target_view(t: StaticTarget) -> Option<Seq<Seq<char>>> {
    match t {
        StaticTarget::Index => None,
        StaticTarget::File(segs) => Some(segs@.map_values(|s: String| s@)),
    }
}

fn is_blank_exec(seg: &[char]) -> (r: bool)
    ensures
        r == is_blank_segment(seg@),
{
    if seg.len() == 0 {
        return true;
    }
    let r = seg.len() == 1 && seg[0] == '.';
    proof {
        if seg@ == seq!['.'] {
            assert(seg@[0] == '.');
        }
        if r {
            assert(seg@ =~= seq!['.']);
        }
    }
    r
}

fn is_escaping_exec(seg: &[char]) -> (r: bool)
    ensures
        r == is_escaping_segment(seg@),
{
    let dots = seg.len() == 2 && seg[0] == '.' && seg[1] == '.';
    proof {
        if seg@ == seq!['.', '.'] {
            assert(seg@[0] == '.' && seg@[1] == '.');
        }
        if dots {
            assert(seg@ =~= seq!['.', '.']);
        }
    }
    let mut i: usize = 0;
    while i < seg.len()
        invariant
            i <= seg@.len(),
            forall|j: int| 0 <= j < i ==> seg@[j] != '\\' && seg@[j] != ':',
        decreases seg@.len() - i,
    {
        if seg[i] == '\\' {
            assert(seg@.contains('\\')) by {
                assert(seg@[i as int] == '\\');
            }
            return true;
        }
        if seg[i] == ':' {
            assert(seg@.contains(':')) by {
                assert(seg@[i as int] == ':');
            }
            return true;
        }
        i = i + 1;
    }
    dots
}

/// Keeps one closed segment: the segments kept so far grow by it unless it
/// is blank; an escaping one is noted.
fn close_segment(
    kept: &mut Vec<String>,
    escaping: &mut bool,
    seg: &[char],
    Ghost(done): Ghost<Seq<Seq<char>>>,
)
    requires
        old(kept)@.map_values(|s: String| s@) == kept_segments(done),
        *old(escaping) == any_escaping(kept_segments(done)),
    ensures
        final(kept)@.map_values(|s: String| s@) == kept_segments(done.push(seg@)),
        *final(escaping) == any_escaping(kept_segments(done.push(seg@))),
{
    assert(done.push(seg@).drop_last() == done);
    if !is_blank_exec(seg) {
        let ghost before = kept_segments(done);
        let ghost old_kept = kept@;
        let esc = is_escaping_exec(seg);
        kept.push(string_of(seg));
        assert(kept@.map_values(|s: String| s@) =~= old_kept.map_values(|s: String| s@).push(seg@));
        let ghost after = before.push(seg@);
        assert(any_escaping(after) == (any_escaping(before) || is_escaping_segment(seg@))) by {
            if any_escaping(after) && !is_escaping_segment(seg@) {
                let k = choose|k: int| 0 <= k < after.len() && is_escaping_segment(#[trigger] after[k]);
                assert(k < before.len());
                assert(after[k] == before[k]);
            }
            if any_escaping(before) {
                let k = choose|k: int| 0 <= k < before.len() && is_escaping_segment(#[trigger] before[k]);
                assert(after[k] == before[k]);
            }
            if is_escaping_segment(seg@) {
                assert(after[before.len() as int] == seg@);
            }
        }
        if esc {
            *escaping = true;
        }
    }
}

/// What a `GET` for `path` serves.
pub fn static_target(path: &str) -> (t: StaticTarget)
    ensures
        target_view(t) == static_target_of(path@),
{
    let cs = chars_of(path);
    let mut kept: Vec<String> = Vec::new();
    let mut escaping = false;
    let mut cur: Vec<char> = Vec::new();
    let mut i: usize = 0;
    assert(kept@.map_values(|s: String| s@) =~= Seq::<Seq<char>>::empty());
    while i < cs.len()
        invariant
            i <= cs@.len(),
            kept@.map_values(|s: String| s@) == kept_segments(split_run(cs@.take(i as int), '/').0),
            escaping == any_escaping(kept_segments(split_run(cs@.take(i as int), '/').0)),
            cur@ == split_run(cs@.take(i as int), '/').1,
        decreases cs@.len() - i,
    {
        let c = cs[i];
        assert(cs@.take(i + 1).drop_last() == cs@.take(i as int));
        if c == '/' {
            close_segment(
                &mut kept,
                &mut escaping,
                &cur,
                Ghost(split_run(cs@.take(i as int), '/').0),
            );
            cur = Vec::new();
        } else {
            cur.push(c);
        }
        i = i + 1;
    }
    assert(cs@.take(cs@.len() as int) == cs@);
    close_segment(&mut kept, &mut escaping, &cur, Ghost(split_run(cs@, '/').0));
    if kept.len() == 0 || escaping {
        StaticTarget::Index
    } else {
        StaticTarget::File(kept)
    }
}


// ---------------------------------------------------------------------
// Content types
// ---------------------------------------------------------------------

/// The extension of a file name: what follows its last `.`, if it has one.
pub open spec fn extension_of(name: Seq<char>) -> Option<Seq<char>>
    decreases name.len(),
{
    if name.len() == 0 {
        None
    } else if name.last() == '.' {
        Some(Seq::<char>::empty())
    } else {
        match extension_of(name.drop_last()) {
            Some(e) => Some(e.push(name.last())),
            None => None,
        }
    }
}

/// The content type a file is served as, by its extension.
pub open spec fn content_type_of(ext: Option<Seq<char>>) -> Seq<char> {
    match ext {
        Some(e) => if e == "html"@ || e == "htm"@ {
            "text/html; charset=utf-8"@
        } else if e == "js"@ || e == "mjs"@ {
            "text/javascript; charset=utf-8"@
        } else if e == "css"@ {
            "text/css; charset=utf-8"@
        } else if e == "json"@ || e == "map"@ {
            "application/json"@
        } else if e == "svg"@ {
            "image/svg+xml"@
        } else if e == "png"@ {
            "image/png"@
        } else if e == "jpg"@ || e == "jpeg"@ {
            "image/jpeg"@
        } else if e == "ico"@ {
            "image/x-icon"@
        } else if e == "wasm"@ {
            "application/wasm"@
        } else if e == "woff2"@ {
            "font/woff2"@
        } else {
            "application/octet-stream"@
        },
        None => "application/octet-stream"@,
    }
}

/// The extension of `name`, found by a backwards scan for the last `.`.
fn extension(name: &[char]) -> (r: Option<String>)
    ensures
        match r {
            Some(e) => extension_of(name@) == Some(e@),
            None => extension_of(name@) is None,
        },
{
    let mut i: usize = name.len();
    proof {
        assert(name@.take(name@.len() as int) =~= name@);
        match extension_of(name@) {
            Some(e) => {
                assert(e + name@.skip(name@.len() as int) =~= e);
            },
            None => {},
        }
    }
    while i > 0 && name[i - 1] != '.'
        invariant
            i <= name@.len(),
            forall|j: int| i <= j < name@.len() ==> name@[j] != '.',
            extension_of(name@) == (match extension_of(name@.take(i as int)) {
                Some(e) => Some(e + name@.skip(i as int)),
                None => None::<Seq<char>>,
            }),
        decreases i,
    {
        let ghost t = name@.take(i as int);
        assert(t.drop_last() == name@.take(i - 1));
        assert(t.last() == name@[i - 1]);
        assert(name@.skip(i - 1) =~= seq![name@[i - 1]] + name@.skip(i as int));
        proof {
            match extension_of(name@.take(i - 1)) {
                Some(e) => {
                    assert(e.push(t.last()) + name@.skip(i as int) =~= e + name@.skip(i - 1));
                },
                None => {},
            }
        }
        i = i - 1;
    }
    if i == 0 {
        assert(name@.take(0) =~= Seq::<char>::empty());
        None
    } else {
        let ghost t = name@.take(i as int);
        assert(t.last() == '.');
        assert(Seq::<char>::empty() + name@.skip(i as int) =~= name@.skip(i as int));
        Some(string_from(name, i))
    }
}

/// The content type for the file `name`.
pub fn content_type_for(name: &str) -> (r: &'static str)
    ensures
        r@ == content_type_of(extension_of(name@)),
{
    let cs = chars_of(name);
    match extension(&cs) {
        None => "application/octet-stream",
        Some(e) => {
            let e = e.as_str();
            if str_eq(e, "html") || str_eq(e, "htm") {
                "text/html; charset=utf-8"
            } else if str_eq(e, "js") || str_eq(e, "mjs") {
                "text/javascript; charset=utf-8"
            } else if str_eq(e, "css") {
                "text/css; charset=utf-8"
            } else if str_eq(e, "json") || str_eq(e, "map") {
                "application/json"
            } else if str_eq(e, "svg") {
                "image/svg+xml"
            } else if str_eq(e, "png") {
                "image/png"
            } else if str_eq(e, "jpg") || str_eq(e, "jpeg") {
                "image/jpeg"
            } else if str_eq(e, "ico") {
                "image/x-icon"
            } else if str_eq(e, "wasm") {
                "application/wasm"
            } else if str_eq(e, "woff2") {
                "font/woff2"
            } else {
                "application/octet-stream"
            }
        },
    }
}

// ---------------------------------------------------------------------
// Laws
// ---------------------------------------------------------------------

proof fn lemma_kept_not_blank(ps: Seq<Seq<char>>)
    ensures
        forall|k: int|
            0 <= k < kept_segments(ps).len() ==> !is_blank_segment(#[trigger] kept_segments(ps)[k]),
    decreases ps.len(),
{
    if ps.len() > 0 {
        lemma_kept_not_blank(ps.drop_last());
        let prev = kept_segments(ps.drop_last());
        let r = kept_segments(ps);
        assert forall|k: int| 0 <= k < r.len() implies !is_blank_segment(#[trigger] r[k]) by {
            if k < prev.len() {
                assert(r[k] == prev[k]);
            }
        }
    }
}

/// A path never names a file outside the UI's directory: the segments of
/// a file it names are neither blank, nor `..`, nor hold a backslash or a colon.
pub proof fn lemma_static_target_stays_inside(path: Seq<char>)
    ensures
        static_target_of(path) matches Some(segs) ==> segs.len() > 0 && forall|k: int|
            0 <= k < segs.len() ==> !is_blank_segment(#[trigger] segs[k]) && !is_escaping_segment(
                segs[k],
            ),
{
    let segs = kept_segments(split_on(path, '/'));
    lemma_kept_not_blank(split_on(path, '/'));
    if !any_escaping(segs) {
        assert forall|k: int| 0 <= k < segs.len() implies !is_escaping_segment(#[trigger] segs[k]) by {
        }
    }
}


/// The path `/s1/s2/.../sn`.
pub open spec fn path_of(segs: Seq<Seq<char>>) -> Seq<char>
    decreases segs.len(),
{
    if segs.len() == 0 {
        Seq::<char>::empty()
    } else {
        path_of(segs.drop_last()) + seq!['/'] + segs.last()
    }
}

proof fn lemma_kept_concat(x: Seq<Seq<char>>, y: Seq<Seq<char>>)
    ensures
        kept_segments(x + y) == kept_segments(x) + kept_segments(y),
    decreases y.len(),
{
    if y.len() == 0 {
        assert(x + y =~= x);
        assert(kept_segments(x) + kept_segments(y) =~= kept_segments(x));
    } else {
        lemma_kept_concat(x, y.drop_last());
        assert((x + y).drop_last() =~= x + y.drop_last());
        assert((x + y).last() == y.last());
        if !is_blank_segment(y.last()) {
            assert((kept_segments(x) + kept_segments(y.drop_last())).push(y.last()) =~= kept_segments(x)
                + kept_segments(y.drop_last()).push(y.last()));
        }
    }
}

proof fn lemma_kept_all(segs: Seq<Seq<char>>)
    requires
        forall|k: int| 0 <= k < segs.len() ==> !is_blank_segment(#[trigger] segs[k]),
    ensures
        kept_segments(segs) == segs,
    decreases segs.len(),
{
    if segs.len() > 0 {
        let rest = segs.drop_last();
        assert forall|k: int| 0 <= k < rest.len() implies !is_blank_segment(#[trigger] rest[k]) by {
            assert(rest[k] == segs[k]);
        }
        lemma_kept_all(rest);
        assert(segs.last() == segs[segs.len() - 1]);
        assert(rest.push(segs.last()) =~= segs);
    }
}

proof fn lemma_split_path(segs: Seq<Seq<char>>)
    requires
        forall|k: int| 0 <= k < segs.len() ==> !(#[trigger] segs[k]).contains('/'),
    ensures
        split_on(path_of(segs), '/') == seq![Seq::<char>::empty()] + segs,
    decreases segs.len(),
{
    if segs.len() == 0 {
        assert(split_run(Seq::<char>::empty(), '/') == (
            Seq::<Seq<char>>::empty(),
            Seq::<char>::empty(),
        ));
        assert(seq![Seq::<char>::empty()] + segs =~= seq![Seq::<char>::empty()]);
        assert(Seq::<Seq<char>>::empty().push(Seq::<char>::empty()) =~= seq![Seq::<char>::empty()]);
    } else {
        let rest = segs.drop_last();
        assert forall|k: int| 0 <= k < rest.len() implies !(#[trigger] rest[k]).contains('/') by {
            assert(rest[k] == segs[k]);
        }
        lemma_split_path(rest);
        let last = segs.last();
        assert(!last.contains('/')) by {
            assert(last == segs[segs.len() - 1]);
        }
        lemma_split_on_join(path_of(rest), '/', last);
        lemma_split_run_single(last, '/');
        assert(split_on(last, '/') =~= seq![last]);
        assert(seq![Seq::<char>::empty()] + rest + seq![last] =~= seq![Seq::<char>::empty()] + segs);
    }
}

/// Every path to a file in the UI's directory names that file: for
/// segments that are neither blank nor escaping and hold no `/`, the path
/// `/s1/.../sn` serves exactly those segments, however many there are.
pub proof fn lemma_file_paths_are_served(segs: Seq<Seq<char>>)
    requires
        segs.len() > 0,
        forall|k: int|
            0 <= k < segs.len() ==> !(#[trigger] segs[k]).contains('/') && !is_blank_segment(segs[k])
                && !is_escaping_segment(segs[k]),
    ensures
        static_target_of(path_of(segs)) == Some(segs),
{
    lemma_split_path(segs);
    let head = seq![Seq::<char>::empty()];
    lemma_kept_concat(head, segs);
    assert(head.drop_last() =~= Seq::<Seq<char>>::empty());
    assert(kept_segments(head) == kept_segments(Seq::<Seq<char>>::empty()));
    lemma_kept_all(segs);
    assert(kept_segments(head) + segs =~= segs);
    if any_escaping(segs) {
        let k = choose|k: int| 0 <= k < segs.len() && is_escaping_segment(#[trigger] segs[k]);
        assert(!is_escaping_segment(segs[k]));
    }
}


proof fn lemma_extension_of_plain(base: Seq<char>, e: Seq<char>)
    requires
        !e.contains('.'),
    ensures
        extension_of(base + seq!['.'] + e) == Some(e),
        !base.contains('.') ==> extension_of(base) is None,
    decreases base.len() + e.len(),
{
    if e.len() == 0 {
        let t = base + seq!['.'];
        assert(t + e =~= t);
        assert(t.last() == '.');
    } else {
        let e1 = e.drop_last();
        assert(!e1.contains('.')) by {
            if e1.contains('.') {
                let j = choose|j: int| 0 <= j < e1.len() && e1[j] == '.';
                assert(e[j] == '.');
            }
        }
        lemma_extension_of_plain(base, e1);
        assert((base + seq!['.'] + e).drop_last() =~= base + seq!['.'] + e1);
        assert((base + seq!['.'] + e).last() == e.last());
        assert(e.last() != '.') by {
            assert(e[e.len() - 1] == e.last());
        }
        assert(e1.push(e.last()) =~= e);
    }
    if !base.contains('.') && base.len() > 0 {
        assert(!base.drop_last().contains('.')) by {
            if base.drop_last().contains('.') {
                let j = choose|j: int| 0 <= j < base.drop_last().len() && base.drop_last()[j] == '.';
                assert(base[j] == '.');
            }
        }
        lemma_extension_of_plain(base.drop_last(), e);
        assert(base.last() != '.') by {
            assert(base[base.len() - 1] == base.last());
        }
    }
}

/// A file's extension is what follows its last `.`; a name without a `.`
/// has none.
pub proof fn lemma_extension_after_last_dot(base: Seq<char>, e: Seq<char>)
    requires
        !e.contains('.'),
    ensures
        extension_of(base + seq!['.'] + e) == Some(e),
        !base.contains('.') ==> extension_of(base) is None,
{
    lemma_extension_of_plain(base, e);
}

} // verus!
