//! The language list the native shell hands over: a comma-separated list
//! such as `"en,ja"`.

use vstd::prelude::*;

use crate::text::char_is_whitespace;
use crate::text::chars_of;
use crate::text::is_white_space;
use crate::text::lemma_split_run_no_sep;
use crate::text::lemma_split_on_join;
use crate::text::lemma_split_run_single;
use crate::text::split_on;
use crate::text::split_run;
use crate::text::string_of;

verus! {

/// The text with its leading white space removed.
pub open spec fn trim_start(s: Seq<char>) -> Seq<char>
    decreases s.len(),
{
    if s.len() > 0 && is_white_space(s[0]) {
        trim_start(s.drop_first())
    } else {
        s
    }
}

/// The text with its trailing white space removed.
pub open spec fn trim_end(s: Seq<char>) -> Seq<char>
    decreases s.len(),
{
    if s.len() > 0 && is_white_space(s.last()) {
        trim_end(s.drop_last())
    } else {
        s
    }
}

/// The text with white space removed at both ends.
pub open spec fn trim(s: Seq<char>) -> Seq<char> {
    trim_end(trim_start(s))
}

/// The pieces between commas; a text without commas is one piece.
pub open spec fn split_commas(s: Seq<char>) -> Seq<Seq<char>> {
    split_on(s, ',')
}

/// The trimmed pieces that are not empty, in order.
pub open spec fn nonempty_trimmed(ps: Seq<Seq<char>>) -> Seq<Seq<char>>
    decreases ps.len(),
{
    if ps.len() == 0 {
        Seq::<Seq<char>>::empty()
    } else {
        let rest = nonempty_trimmed(ps.drop_last());
        let t = trim(ps.last());
        if t.len() > 0 {
            rest.push(t)
        } else {
            rest
        }
    }
}

/// The languages a comma-separated list names.
pub open spec fn parsed_langs(s: Seq<char>) -> Seq<Seq<char>> {
    nonempty_trimmed(split_commas(s))
}

pub open spec fn string_views(v: Seq<String>) -> Seq<Seq<char>> {
    v.map_values(|s: String| s@)
}

proof fn lemma_trim_start_skip(s: Seq<char>, a: int)
    requires
        0 <= a <= s.len(),
        forall|j: int| 0 <= j < a ==> is_white_space(#[trigger] s[j]),
    ensures
        trim_start(s) == trim_start(s.skip(a)),
    decreases a,
{
    if a > 0 {
        assert(s.drop_first().skip(a - 1) =~= s.skip(a));
        assert forall|j: int| 0 <= j < a - 1 implies is_white_space(#[trigger] s.drop_first()[j]) by {
            assert(s.drop_first()[j] == s[j + 1]);
        }
        lemma_trim_start_skip(s.drop_first(), a - 1);
    } else {
        assert(s.skip(0) =~= s);
    }
}

proof fn lemma_trim_end_take(s: Seq<char>, b: int)
    requires
        0 <= b <= s.len(),
        forall|j: int| b <= j < s.len() ==> is_white_space(#[trigger] s[j]),
    ensures
        trim_end(s) == trim_end(s.take(b)),
    decreases s.len() - b,
{
    if b < s.len() {
        assert(s.drop_last().take(b) =~= s.take(b));
        lemma_trim_end_take(s.drop_last(), b);
    } else {
        assert(s.take(b) =~= s);
    }
}

/// `v` with white space removed at both ends.
pub fn trim_chars(v: &[char]) -> (r: Vec<char>)
    ensures
        r@ == trim(v@),
{
    let n = v.len();
    let mut a: usize = 0;
    while a < n && char_is_whitespace(v[a])
        invariant
            n == v@.len(),
            a <= n,
            forall|j: int| 0 <= j < a ==> is_white_space(#[trigger] v@[j]),
        decreases n - a,
    {
        a = a + 1;
    }
    proof {
        lemma_trim_start_skip(v@, a as int);
    }
    let ghost s1 = v@.skip(a as int);
    assert(trim_start(s1) == s1);
    let mut b: usize = n;
    while b > a && char_is_whitespace(v[b - 1])
        invariant
            n == v@.len(),
            a <= b <= n,
            s1 == v@.skip(a as int),
            forall|j: int| b - a <= j < s1.len() ==> is_white_space(#[trigger] s1[j]),
        decreases b - a,
    {
        b = b - 1;
    }
    proof {
        lemma_trim_end_take(s1, (b - a) as int);
    }
    let mut r: Vec<char> = Vec::new();
    let mut k: usize = a;
    while k < b
        invariant
            a <= k <= b <= n,
            n == v@.len(),
            r@ == v@.subrange(a as int, k as int),
        decreases b - k,
    {
        r.push(v[k]);
        assert(v@.subrange(a as int, k + 1) =~= v@.subrange(a as int, k as int).push(v@[k as int]));
        k = k + 1;
    }
    assert(r@ =~= s1.take((b - a) as int));
    r
}

/// The languages named by a comma-separated list: each piece between
/// commas, trimmed, empty pieces dropped.
pub fn parse_langs(list: &str) -> (langs: Vec<String>)
    ensures
        string_views(langs@) == parsed_langs(list@),
{
    let cs = chars_of(list);
    let mut langs: Vec<String> = Vec::new();
    let mut cur: Vec<char> = Vec::new();
    let mut i: usize = 0;
    while i < cs.len()
        invariant
            i <= cs@.len(),
            string_views(langs@) == nonempty_trimmed(split_run(cs@.take(i as int), ',').0),
            cur@ == split_run(cs@.take(i as int), ',').1,
        decreases cs@.len() - i,
    {
        let c = cs[i];
        let ghost pre = cs@.take(i as int);
        assert(cs@.take(i + 1).drop_last() == pre);
        if c == ',' {
            let t = trim_chars(&cur);
            let ghost done = split_run(pre, ',').0;
            assert(done.push(cur@).drop_last() == done);
            if t.len() > 0 {
                let ghost old_langs = langs@;
                langs.push(string_of(&t));
                assert(string_views(langs@) =~= string_views(old_langs).push(t@));
            }
            cur = Vec::new();
        } else {
            cur.push(c);
        }
        i = i + 1;
    }
    assert(cs@.take(cs@.len() as int) == cs@);
    let t = trim_chars(&cur);
    let ghost done = split_run(cs@, ',').0;
    assert(done.push(cur@).drop_last() == done);
    if t.len() > 0 {
        let ghost old_langs = langs@;
        langs.push(string_of(&t));
        assert(string_views(langs@) =~= string_views(old_langs).push(t@));
    }
    langs
}

/// The languages to start the backend with: those the list names, or
/// English when no list is given.
pub fn preferred_langs(list: Option<&str>) -> (langs: Vec<String>)
    ensures
        match list {
            Some(l) => string_views(langs@) == parsed_langs(l@),
            None => string_views(langs@) == seq![seq!['e', 'n']],
        },
{
    match list {
        Some(l) => parse_langs(l),
        None => {
            let mut langs: Vec<String> = Vec::new();
            let mut en = String::new();
            crate::text::push_char(&mut en, 'e');
            crate::text::push_char(&mut en, 'n');
            assert(en@ =~= seq!['e', 'n']);
            langs.push(en);
            assert(string_views(langs@) =~= seq![seq!['e', 'n']]);
            langs
        },
    }
}


// ---------------------------------------------------------------------
// Laws
// ---------------------------------------------------------------------

/// A language as the list yields it: not empty, free of commas, and without
/// white space at either end.
pub open spec fn is_clean_lang(l: Seq<char>) -> bool {
    &&& l.len() > 0
    &&& !l.contains(',')
    &&& !is_white_space(l[0])
    &&& !is_white_space(l.last())
}

proof fn lemma_trim_start_props(s: Seq<char>)
    ensures
        trim_start(s).len() <= s.len(),
        forall|j: int|
            0 <= j < trim_start(s).len() ==> #[trigger] trim_start(s)[j] == s[j + s.len()
                - trim_start(s).len()],
        trim_start(s).len() > 0 ==> !is_white_space(trim_start(s)[0]),
    decreases s.len(),
{
    if s.len() > 0 && is_white_space(s[0]) {
        lemma_trim_start_props(s.drop_first());
    }
}

proof fn lemma_trim_end_props(s: Seq<char>)
    ensures
        trim_end(s).len() <= s.len(),
        forall|j: int| 0 <= j < trim_end(s).len() ==> #[trigger] trim_end(s)[j] == s[j],
        trim_end(s).len() > 0 ==> !is_white_space(trim_end(s).last()),
    decreases s.len(),
{
    if s.len() > 0 && is_white_space(s.last()) {
        lemma_trim_end_props(s.drop_last());
    }
}

proof fn lemma_trim_clean(p: Seq<char>)
    requires
        !p.contains(','),
        trim(p).len() > 0,
    ensures
        is_clean_lang(trim(p)),
{
    lemma_trim_start_props(p);
    let t1 = trim_start(p);
    lemma_trim_end_props(t1);
    let t = trim(p);
    assert(t[0] == t1[0]);
    if t.contains(',') {
        let j = choose|j: int| 0 <= j < t.len() && t[j] == ',';
        assert(t[j] == t1[j]);
        assert(t1[j] == p[j + p.len() - t1.len()]);
        assert(p.contains(','));
    }
}

proof fn lemma_nonempty_trimmed_clean(ps: Seq<Seq<char>>)
    requires
        forall|k: int| 0 <= k < ps.len() ==> !(#[trigger] ps[k]).contains(','),
    ensures
        forall|k: int|
            0 <= k < nonempty_trimmed(ps).len() ==> is_clean_lang(#[trigger] nonempty_trimmed(ps)[k]),
    decreases ps.len(),
{
    if ps.len() > 0 {
        let rest = ps.drop_last();
        assert forall|k: int| 0 <= k < rest.len() implies !(#[trigger] rest[k]).contains(',') by {
            assert(rest[k] == ps[k]);
        }
        lemma_nonempty_trimmed_clean(rest);
        let prev = nonempty_trimmed(rest);
        let r = nonempty_trimmed(ps);
        if trim(ps.last()).len() > 0 {
            lemma_trim_clean(ps.last());
            assert forall|k: int| 0 <= k < r.len() implies is_clean_lang(#[trigger] r[k]) by {
                if k < prev.len() {
                    assert(r[k] == prev[k]);
                }
            }
        }
    }
}

/// Every language the list yields is non-empty, holds no comma, and has no
/// white space at either end.
pub proof fn lemma_parsed_langs_are_clean(s: Seq<char>)
    ensures
        forall|k: int| 0 <= k < parsed_langs(s).len() ==> is_clean_lang(#[trigger] parsed_langs(s)[k]),
{
    lemma_split_run_no_sep(s, ',');
    let ps = split_commas(s);
    assert forall|k: int| 0 <= k < ps.len() implies !(#[trigger] ps[k]).contains(',') by {
        if k < split_run(s, ',').0.len() {
            assert(ps[k] == split_run(s, ',').0[k]);
        }
    }
    lemma_nonempty_trimmed_clean(ps);
}

/// A list without commas or surrounding white space names exactly one
/// language, itself.
pub proof fn lemma_single_lang(s: Seq<char>)
    requires
        is_clean_lang(s),
    ensures
        parsed_langs(s) == seq![s],
{
    lemma_split_run_single(s, ',');
    assert(trim_start(s) == s);
    assert(trim_end(s) == s);
    let ps = split_commas(s);
    assert(ps == seq![s]);
    assert(ps.drop_last() =~= Seq::<Seq<char>>::empty());
    assert(ps.last() == s);
    assert(nonempty_trimmed(ps.drop_last()) == Seq::<Seq<char>>::empty());
    assert(trim(s) == s);
    assert(nonempty_trimmed(ps) == Seq::<Seq<char>>::empty().push(s));
    assert(seq![s] =~= Seq::<Seq<char>>::empty().push(s));
}


proof fn lemma_nonempty_trimmed_concat(x: Seq<Seq<char>>, y: Seq<Seq<char>>)
    ensures
        nonempty_trimmed(x + y) == nonempty_trimmed(x) + nonempty_trimmed(y),
    decreases y.len(),
{
    if y.len() == 0 {
        assert(x + y =~= x);
        assert(nonempty_trimmed(x) + nonempty_trimmed(y) =~= nonempty_trimmed(x));
    } else {
        lemma_nonempty_trimmed_concat(x, y.drop_last());
        assert((x + y).drop_last() =~= x + y.drop_last());
        assert((x + y).last() == y.last());
        let t = trim(y.last());
        if t.len() > 0 {
            assert((nonempty_trimmed(x) + nonempty_trimmed(y.drop_last())).push(t) =~= nonempty_trimmed(
                x,
            ) + nonempty_trimmed(y.drop_last()).push(t));
        }
    }
}

/// The list parses piece by piece: the languages of two lists joined by a
/// comma are those of the first followed by those of the second.
pub proof fn lemma_langs_of_joined_lists(a: Seq<char>, b: Seq<char>)
    ensures
        parsed_langs(a + seq![','] + b) == parsed_langs(a) + parsed_langs(b),
{
    lemma_split_on_join(a, ',', b);
    lemma_nonempty_trimmed_concat(split_commas(a), split_commas(b));
}

proof fn lemma_trim_start_shape(s: Seq<char>) -> (a: int)
    ensures
        0 <= a <= s.len(),
        trim_start(s) == s.skip(a),
        forall|i: int| 0 <= i < a ==> is_white_space(#[trigger] s[i]),
        a < s.len() ==> !is_white_space(s[a]),
    decreases s.len(),
{
    if s.len() > 0 && is_white_space(s[0]) {
        let a1 = lemma_trim_start_shape(s.drop_first());
        assert(s.drop_first().skip(a1) =~= s.skip(a1 + 1));
        assert forall|i: int| 0 <= i < a1 + 1 implies is_white_space(#[trigger] s[i]) by {
            if i > 0 {
                assert(s[i] == s.drop_first()[i - 1]);
            }
        }
        assert(a1 + 1 < s.len() ==> s[a1 + 1] == s.drop_first()[a1]);
        a1 + 1
    } else {
        assert(s.skip(0) =~= s);
        0
    }
}

proof fn lemma_trim_end_shape(s: Seq<char>) -> (b: int)
    ensures
        0 <= b <= s.len(),
        trim_end(s) == s.take(b),
        forall|i: int| b <= i < s.len() ==> is_white_space(#[trigger] s[i]),
        b > 0 ==> !is_white_space(s[b - 1]),
    decreases s.len(),
{
    if s.len() > 0 && is_white_space(s.last()) {
        let b1 = lemma_trim_end_shape(s.drop_last());
        assert(s.drop_last().take(b1) =~= s.take(b1));
        assert forall|i: int| b1 <= i < s.len() implies is_white_space(#[trigger] s[i]) by {
            if i < s.len() - 1 {
                assert(s[i] == s.drop_last()[i]);
            }
        }
        assert(b1 > 0 ==> s[b1 - 1] == s.drop_last()[b1 - 1]);
        b1
    } else {
        assert(s.take(s.len() as int) =~= s);
        s.len() as int
    }
}

/// Trimming keeps a run of the text and drops only white space: the result
/// is the text between its first and last non-white characters, and
/// everything outside that run is white space.
pub proof fn lemma_trim_keeps_the_middle(s: Seq<char>)
    ensures
        exists|a: int, b: int|
            0 <= a <= b <= s.len() && #[trigger] s.subrange(a, b) == trim(s) && (forall|i: int|
                0 <= i < a ==> is_white_space(#[trigger] s[i])) && (forall|i: int|
                b <= i < s.len() ==> is_white_space(#[trigger] s[i])) && (a < b ==> !is_white_space(s[a])
                && !is_white_space(s[b - 1])),
{
    let a = lemma_trim_start_shape(s);
    let s1 = s.skip(a);
    let b1 = lemma_trim_end_shape(s1);
    let b = a + b1;
    assert(s.subrange(a, b) =~= s1.take(b1));
    assert forall|i: int| b <= i < s.len() implies is_white_space(#[trigger] s[i]) by {
        assert(s[i] == s1[i - a]);
    }
    if a < b {
        assert(s[a] == s1[0]);
        assert(s[b - 1] == s1[b1 - 1]);
        assert(!is_white_space(s1[0]));
    }
    assert(s.subrange(a, b) == trim(s));
}

} // verus!
