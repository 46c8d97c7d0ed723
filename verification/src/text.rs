//! Character-level helpers over `str` and `String`, and the few std
//! character functions the rest of the crate relies on.

use vstd::prelude::*;

verus! {

/// The characters of `s`, in order.
pub fn chars_of(s: &str) -> (v: Vec<char>)
    ensures
        v@ == s@,
{
    let mut v: Vec<char> = Vec::new();
    for c in it: s.chars()
        invariant
            v@ == it.seq().take(it.index() as int),
    {
        v.push(c);
    }
    v
}


/// Appends one character (std's `String::push`).
#[verifier::external_body]
pub(crate) fn push_char(s: &mut String, c: char)
    ensures
        final(s)@ == old(s)@.push(c),
{
    s.push(c);
}

/// Whether two string slices hold the same characters.
pub fn str_eq(a: &str, b: &str) -> (r: bool)
    ensures
        r == (a@ == b@),
{
    let x = chars_of(a);
    let y = chars_of(b);
    if x.len() != y.len() {
        return false;
    }
    let mut i: usize = 0;
    while i < x.len()
        invariant
            x@ == a@,
            y@ == b@,
            x@.len() == y@.len(),
            i <= x@.len(),
            forall|j: int| 0 <= j < i ==> x@[j] == y@[j],
        decreases x@.len() - i,
    {
        if x[i] != y[i] {
            assert(a@[i as int] != b@[i as int]);
            return false;
        }
        i = i + 1;
    }
    assert(x@ =~= y@);
    true
}

/// The string made of the characters `v`, in order.
pub fn string_of(v: &[char]) -> (s: String)
    ensures
        s@ == v@,
{
    assert(v@.skip(0) == v@);
    string_from(v, 0)
}

/// The string made of the characters of `v` from position `from` on.
pub fn string_from(v: &[char], from: usize) -> (s: String)
    requires
        from <= v@.len(),
    ensures
        s@ == v@.skip(from as int),
{
    let mut s = String::new();
    let mut i: usize = from;
    while i < v.len()
        invariant
            from <= i <= v@.len(),
            s@ == v@.subrange(from as int, i as int),
        decreases v@.len() - i,
    {
        push_char(&mut s, v[i]);
        assert(v@.subrange(from as int, i as int).push(v@[i as int]) == v@.subrange(
            from as int,
            i + 1,
        ));
        i = i + 1;
    }
    assert(v@.subrange(from as int, v@.len() as int) == v@.skip(from as int));
    s
}

/// The Unicode `White_Space` property, which `char::is_whitespace` and
/// `str::trim` go by.
pub open spec fn is_white_space(c: char) -> bool {
    let u = c as u32;
    ||| 0x09 <= u <= 0x0D
    ||| u == 0x20
    ||| u == 0x85
    ||| u == 0xA0
    ||| u == 0x1680
    ||| 0x2000 <= u <= 0x200A
    ||| u == 0x2028
    ||| u == 0x2029
    ||| u == 0x202F
    ||| u == 0x205F
    ||| u == 0x3000
}

/// Whether `c` has the Unicode `White_Space` property.
pub fn char_is_whitespace(c: char) -> (r: bool)
    ensures
        r == is_white_space(c),
{
    let u = c as u32;
    (0x09 <= u && u <= 0x0D) || u == 0x20 || u == 0x85 || u == 0xA0 || u == 0x1680 || (0x2000 <= u
        && u <= 0x200A) || u == 0x2028 || u == 0x2029 || u == 0x202F || u == 0x205F || u == 0x3000
}

/// The characters that std's `char::to_uppercase` yields for `c`: Unicode's
/// full uppercase mapping, one to three characters.
pub uninterp spec fn uppercase_of(c: char) -> Seq<char>;

/// std's `char::to_uppercase`, collected. Its result is named by
/// `uppercase_of`; for ASCII the mapping is stated: `a`..=`z` map to
/// `A`..=`Z` and every other ASCII character maps to itself. What it gives
/// outside ASCII rests on Unicode's tables and is left unstated.
#[verifier::external_body]
pub(crate) fn char_to_uppercase(c: char) -> (r: Vec<char>)
    ensures
        r@ == uppercase_of(c),
        'a' <= c <= 'z' ==> r@ == seq![((c as u32) - 32) as char],
        (c as u32) < 128 && !('a' <= c <= 'z') ==> r@ == seq![c],
{
    c.to_uppercase().collect()
}


/// Splitting at `sep`, character by character: the pieces already closed by
/// a separator, and the piece still open.
pub open spec fn split_run(s: Seq<char>, sep: char) -> (Seq<Seq<char>>, Seq<char>)
    decreases s.len(),
{
    if s.len() == 0 {
        (Seq::<Seq<char>>::empty(), Seq::<char>::empty())
    } else {
        let (done, cur) = split_run(s.drop_last(), sep);
        if s.last() == sep {
            (done.push(cur), Seq::<char>::empty())
        } else {
            (done, cur.push(s.last()))
        }
    }
}

/// The pieces between the separators; a text without one is one piece.
pub open spec fn split_on(s: Seq<char>, sep: char) -> Seq<Seq<char>> {
    split_run(s, sep).0.push(split_run(s, sep).1)
}

/// No piece holds the separator.
pub proof fn lemma_split_run_no_sep(s: Seq<char>, sep: char)
    ensures
        !split_run(s, sep).1.contains(sep),
        forall|k: int|
            0 <= k < split_run(s, sep).0.len() ==> !(#[trigger] split_run(s, sep).0[k]).contains(sep),
    decreases s.len(),
{
    if s.len() > 0 {
        lemma_split_run_no_sep(s.drop_last(), sep);
        let (done, cur) = split_run(s.drop_last(), sep);
        if s.last() != sep {
            assert forall|j: int| 0 <= j < cur.push(s.last()).len() implies cur.push(s.last())[j]
                != sep by {
                if j < cur.len() {
                    assert(cur.push(s.last())[j] == cur[j]);
                }
            }
        }
    }
}

/// A text without the separator is one open piece.
pub proof fn lemma_split_run_single(s: Seq<char>, sep: char)
    requires
        !s.contains(sep),
    ensures
        split_run(s, sep).0 == Seq::<Seq<char>>::empty(),
        split_run(s, sep).1 == s,
    decreases s.len(),
{
    if s.len() > 0 {
        assert(!s.drop_last().contains(sep)) by {
            if s.drop_last().contains(sep) {
                let j = choose|j: int| 0 <= j < s.drop_last().len() && s.drop_last()[j] == sep;
                assert(s[j] == sep);
            }
        }
        lemma_split_run_single(s.drop_last(), sep);
        assert(s.last() != sep) by {
            assert(s[s.len() - 1] == s.last());
        }
        assert(s.drop_last().push(s.last()) =~= s);
    }
}


proof fn lemma_split_run_after_sep(x: Seq<char>, sep: char, y: Seq<char>)
    ensures
        split_run(x + seq![sep] + y, sep).0 == split_on(x, sep) + split_run(y, sep).0,
        split_run(x + seq![sep] + y, sep).1 == split_run(y, sep).1,
    decreases y.len(),
{
    let xs = x + seq![sep];
    if y.len() == 0 {
        assert(xs + y =~= xs);
        assert(xs.drop_last() =~= x);
        assert(xs.last() == sep);
        assert(split_on(x, sep) + Seq::<Seq<char>>::empty() =~= split_on(x, sep));
    } else {
        lemma_split_run_after_sep(x, sep, y.drop_last());
        assert((xs + y).drop_last() =~= xs + y.drop_last());
        assert((xs + y).last() == y.last());
        let (d, c) = split_run(y.drop_last(), sep);
        if y.last() == sep {
            assert((split_on(x, sep) + d).push(c) =~= split_on(x, sep) + d.push(c));
        }
    }
}

/// Splitting goes piece by piece: text joined at a separator splits into
/// the pieces of its two sides.
pub proof fn lemma_split_on_join(x: Seq<char>, sep: char, y: Seq<char>)
    ensures
        split_on(x + seq![sep] + y, sep) == split_on(x, sep) + split_on(y, sep),
{
    lemma_split_run_after_sep(x, sep, y);
    let (d, c) = split_run(y, sep);
    assert((split_on(x, sep) + d).push(c) =~= split_on(x, sep) + d.push(c));
}

} // verus!
