//! Helpers of the desktop dev harness: its command line, the path it
//! reports, and the page it patches with the run's settings.

use vstd::prelude::*;

use crate::text::chars_of;
use crate::text::string_from;
use crate::text::string_of;

verus! {

// ---------------------------------------------------------------------
// Command line
// ---------------------------------------------------------------------

/// `--` followed by the option's name.
pub open spec fn flag_of(name: Seq<char>) -> Seq<char> {
    seq!['-', '-'] + name
}

/// The value of option `name` among `args`, searching from position `i`:
/// the first argument that reads `--name=value` gives `value`, the first
/// that reads `--name` gives the argument after it (none when it is last).
pub open spec fn arg_from(args: Seq<Seq<char>>, name: Seq<char>, i: int) -> Option<Seq<char>>
    decreases args.len() - i,
{
    if i < 0 || i >= args.len() {
        None
    } else {
        let a = args[i];
        let f = flag_of(name).push('=');
        if a.len() >= f.len() && a.take(f.len() as int) == f {
            Some(a.skip(f.len() as int))
        } else if a == flag_of(name) {
            if i + 1 < args.len() {
                Some(args[i + 1])
            } else {
                None
            }
        } else {
            arg_from(args, name, i + 1)
        }
    }
}

pub open spec fn arg_views(args: Seq<String>) -> Seq<Seq<char>> {
    args.map_values(|s: String| s@)
}

fn starts_with_chars(a: &[char], p: &[char]) -> (r: bool)
    ensures
        r == (a@.len() >= p@.len() && a@.take(p@.len() as int) == p@),
{
    if a.len() < p.len() {
        return false;
    }
    let mut i: usize = 0;
    while i < p.len()
        invariant
            i <= p@.len() <= a@.len(),
            forall|j: int| 0 <= j < i ==> a@[j] == p@[j],
        decreases p@.len() - i,
    {
        if a[i] != p[i] {
            assert(a@.take(p@.len() as int)[i as int] != p@[i as int]);
            return false;
        }
        i = i + 1;
    }
    assert(a@.take(p@.len() as int) =~= p@);
    true
}

/// The value of the command-line option `name`, where `args` is the whole
/// command line, program name first: `--name=value` or `--name value`.
pub fn find_arg(args: &[String], name: &str) -> (r: Option<String>)
    ensures
        match r {
            Some(v) => arg_from(arg_views(args@), name@, 1) == Some(v@),
            None => arg_from(arg_views(args@), name@, 1) is None,
        },
{
    let ghost av = arg_views(args@);
    let mut flag: Vec<char> = Vec::new();
    flag.push('-');
    flag.push('-');
    let mut name_chars = chars_of(name);
    flag.append(&mut name_chars);
    assert(flag@ =~= flag_of(name@));
    let mut with_eq = flag.clone();
    with_eq.push('=');
    assert(with_eq@ =~= flag_of(name@).push('='));
    let mut i: usize = 1;
    while i < args.len()
        invariant
            av == arg_views(args@),
            flag@ == flag_of(name@),
            with_eq@ == flag_of(name@).push('='),
            1 <= i,
            arg_from(av, name@, i as int) == arg_from(av, name@, 1),
        decreases args@.len() - i,
    {
        let a = chars_of(args[i].as_str());
        assert(av[i as int] == a@);
        if starts_with_chars(&a, &with_eq) {
            return Some(string_from(&a, with_eq.len()));
        }
        if a.len() == flag.len() && starts_with_chars(&a, &flag) {
            assert(a@.take(flag@.len() as int) =~= a@);
            if i + 1 < args.len() {
                assert(av[i + 1] == args@[i + 1]@);
                return Some(args[i + 1].clone());
            }
            return None;
        }
        proof {
            if a@ == flag_of(name@) {
                assert(a@.take(flag@.len() as int) =~= a@);
            }
        }
        i = i + 1;
    }
    None
}


// ---------------------------------------------------------------------
// The port option
// ---------------------------------------------------------------------

pub open spec fn is_digit(c: char) -> bool {
    '0' <= c <= '9'
}

/// The number a run of decimal digits spells.
pub open spec fn decimal_value(d: Seq<char>) -> nat
    decreases d.len(),
{
    if d.len() == 0 {
        0
    } else {
        decimal_value(d.drop_last()) * 10 + ((d.last() as u32) - 48) as nat
    }
}

/// The digits of a port number: the text after an optional leading `+`.
pub open spec fn port_digits(s: Seq<char>) -> Seq<char> {
    if s.len() > 0 && s[0] == '+' {
        s.drop_first()
    } else {
        s
    }
}

pub open spec fn all_digits(d: Seq<char>) -> bool {
    forall|j: int| 0 <= j < d.len() ==> is_digit(#[trigger] d[j])
}

/// What std's `str::parse::<u16>` accepts: an optional `+`, then one or
/// more decimal digits spelling a number that fits in 16 bits.
pub open spec fn port_value(s: Seq<char>) -> Option<u16> {
    let d = port_digits(s);
    if d.len() > 0 && all_digits(d) && decimal_value(d) <= 65535 {
        Some(decimal_value(d) as u16)
    } else {
        None
    }
}

proof fn lemma_decimal_value_grows(d: Seq<char>, k: int)
    requires
        0 <= k <= d.len(),
        forall|j: int| 0 <= j < d.len() ==> is_digit(#[trigger] d[j]),
    ensures
        decimal_value(d.take(k)) <= decimal_value(d),
    decreases d.len() - k,
{
    if k < d.len() {
        assert(d.drop_last().take(k) =~= d.take(k));
        lemma_decimal_value_grows(d.drop_last(), k);
    } else {
        assert(d.take(k) =~= d);
    }
}

/// Parses the value of `--port`.
pub fn parse_port(text: &str) -> (r: Option<u16>)
    ensures
        r == port_value(text@),
{
    let cs = chars_of(text);
    let start: usize = if cs.len() > 0 && cs[0] == '+' {
        1
    } else {
        0
    };
    let ghost d = port_digits(cs@);
    assert(d =~= cs@.skip(start as int));
    if start >= cs.len() {
        assert(d.len() == 0);
        assert(port_value(cs@) is None);
        return None;
    }
    let mut v: u32 = 0;
    let mut i: usize = start;
    while i < cs.len()
        invariant
            start <= i <= cs@.len(),
            cs@ == text@,
            d == cs@.skip(start as int),
            d == port_digits(cs@),
            forall|j: int| 0 <= j < i - start ==> is_digit(#[trigger] d[j]),
            v == decimal_value(d.take(i - start)),
            v <= 65535,
        decreases cs@.len() - i,
    {
        let c = cs[i];
        assert(d[i - start] == c);
        if !('0' <= c && c <= '9') {
            assert(!is_digit(d[i - start]));
            assert(!all_digits(d));
            return None;
        }
        let digit: u32 = (c as u32) - 48;
        assert(d.take(i + 1 - start).drop_last() =~= d.take(i - start));
        v = v * 10 + digit;
        if v > 65535 {
            proof {
                let k = i + 1 - start;
                if all_digits(d) {
                    lemma_decimal_value_grows(d, k);
                }
            }
            return None;
        }
        i = i + 1;
    }
    assert(d.take(d.len() as int) =~= d);
    Some(v as u16)
}

// ---------------------------------------------------------------------
// The data directory as shown
// ---------------------------------------------------------------------

/// The prefix of a Windows verbatim path, `\\?\`.
pub open spec fn verbatim_prefix() -> Seq<char> {
    seq!['\\', '\\', '?', '\\']
}

/// The path with a leading `\\?\` removed, if it has one.
pub open spec fn without_verbatim_prefix(s: Seq<char>) -> Seq<char> {
    if s.len() >= 4 && s.take(4) == verbatim_prefix() {
        s.skip(4)
    } else {
        s
    }
}

/// The ordinary spelling of a canonical path: a leading `\\?\` is removed.
pub fn strip_verbatim_prefix(path: &str) -> (r: String)
    ensures
        r@ == without_verbatim_prefix(path@),
{
    let cs = chars_of(path);
    if cs.len() >= 4 && cs[0] == '\\' && cs[1] == '\\' && cs[2] == '?' && cs[3] == '\\' {
        assert(cs@.take(4) =~= verbatim_prefix());
        string_from(&cs, 4)
    } else {
        proof {
            if cs@.len() >= 4 && cs@.take(4) == verbatim_prefix() {
                assert(cs@.take(4)[0] == '\\');
                assert(cs@.take(4)[1] == '\\');
                assert(cs@.take(4)[2] == '?');
                assert(cs@.take(4)[3] == '\\');
            }
        }
        string_of(&cs)
    }
}

// ---------------------------------------------------------------------
// Patching the page
// ---------------------------------------------------------------------

/// The closing tag of a page's head.
pub open spec fn head_close() -> Seq<char> {
    seq!['<', '/', 'h', 'e', 'a', 'd', '>']
}

/// `pat` occurs in `s` at position `i`.
pub open spec fn occurs_at(s: Seq<char>, pat: Seq<char>, i: int) -> bool {
    0 <= i && i + pat.len() <= s.len() && s.subrange(i, i + pat.len()) == pat
}

/// The first position from `i` on where `pat` occurs in `s`, or -1.
pub open spec fn find_from(s: Seq<char>, pat: Seq<char>, i: int) -> int
    decreases s.len() - i,
{
    if i < 0 || i >= s.len() || i + pat.len() > s.len() {
        -1
    } else if occurs_at(s, pat, i) {
        i
    } else {
        find_from(s, pat, i + 1)
    }
}

/// The page with `injected` placed just before its first `</head>`, or in
/// front of everything when it has none.
pub open spec fn injected_page(page: Seq<char>, injected: Seq<char>) -> Seq<char> {
    let i = find_from(page, head_close(), 0);
    if i >= 0 {
        page.take(i) + injected + page.skip(i)
    } else {
        injected + page
    }
}

fn occurs_at_exec(s: &[char], pat: &[char], i: usize) -> (r: bool)
    requires
        i + pat@.len() <= s@.len(),
    ensures
        r == occurs_at(s@, pat@, i as int),
{
    let n = s.len();
    let mut k: usize = 0;
    while k < pat.len()
        invariant
            k <= pat@.len(),
            i + pat@.len() <= s@.len(),
            n == s@.len(),
            forall|j: int| 0 <= j < k ==> s@[i + j] == pat@[j],
        decreases pat@.len() - k,
    {
        if s[i + k] != pat[k] {
            assert(s@.subrange(i as int, i + pat@.len())[k as int] != pat@[k as int]);
            return false;
        }
        k = k + 1;
    }
    assert(s@.subrange(i as int, i + pat@.len()) =~= pat@);
    true
}

/// Puts the run's settings into the page: `injected` goes just before the
/// first `</head>`, or in front when the page has no head.
pub fn inject_config(page: &str, injected: &str) -> (r: String)
    ensures
        r@ == injected_page(page@, injected@),
{
    let cs = chars_of(page);
    let inj = chars_of(injected);
    let pat: Vec<char> = vec!['<', '/', 'h', 'e', 'a', 'd', '>'];
    assert(pat@ =~= head_close());
    let mut i: usize = 0;
    let mut found = false;
    while !found && i < cs.len() && cs.len() - i >= 7
        invariant
            pat@ == head_close(),
            i <= cs@.len(),
            find_from(cs@, pat@, i as int) == find_from(cs@, pat@, 0),
            found ==> occurs_at(cs@, pat@, i as int) && i < cs@.len(),
        decreases cs@.len() - i + (if found { 0int } else { 1int }),
    {
        if occurs_at_exec(&cs, &pat, i) {
            found = true;
        } else {
            i = i + 1;
        }
    }
    let mut out: Vec<char> = Vec::new();
    if found {
        assert(find_from(cs@, pat@, i as int) == i);
        let mut k: usize = 0;
        while k < i
            invariant
                k <= i <= cs@.len(),
                out@ == cs@.take(k as int),
            decreases i - k,
        {
            out.push(cs[k]);
            assert(cs@.take(k + 1) =~= cs@.take(k as int).push(cs@[k as int]));
            k = k + 1;
        }
        let mut inj2 = inj.clone();
        out.append(&mut inj2);
        let mut k2: usize = i;
        let ghost base = out@;
        while k2 < cs.len()
            invariant
                i <= k2 <= cs@.len(),
                out@ == base + cs@.subrange(i as int, k2 as int),
            decreases cs@.len() - k2,
        {
            out.push(cs[k2]);
            assert(cs@.subrange(i as int, k2 + 1) =~= cs@.subrange(i as int, k2 as int).push(
                cs@[k2 as int],
            ));
            k2 = k2 + 1;
        }
        assert(cs@.subrange(i as int, cs@.len() as int) =~= cs@.skip(i as int));
    } else {
        assert(find_from(cs@, pat@, i as int) == -1);
        let mut inj2 = inj.clone();
        out.append(&mut inj2);
        let mut cs2 = cs.clone();
        out.append(&mut cs2);
    }
    string_of(&out)
}


proof fn lemma_find_from_props(s: Seq<char>, pat: Seq<char>, i: int)
    requires
        0 <= i,
    ensures
        find_from(s, pat, i) == -1 || (i <= find_from(s, pat, i) < s.len() && occurs_at(
            s,
            pat,
            find_from(s, pat, i),
        )),
        forall|j: int| i <= j < s.len() && #[trigger] occurs_at(s, pat, j) ==> 0 <= find_from(s, pat, i) <= j,
    decreases s.len() - i,
{
    if !(i >= s.len() || i + pat.len() > s.len()) && !occurs_at(s, pat, i) {
        lemma_find_from_props(s, pat, i + 1);
    }
}

/// Patching leaves the page itself intact: cutting the injected text out
/// of the result gives back the page. When the page has a head, the
/// injected text ends its head, just before the first `</head>`.
pub proof fn lemma_injection_keeps_page(page: Seq<char>, injected: Seq<char>)
    ensures
        exists|i: int|
            0 <= i <= page.len() && #[trigger] injected_page(page, injected) == page.take(i) + injected
                + page.skip(i),
        ({
            let i = find_from(page, head_close(), 0);
            i >= 0 ==> {
                &&& occurs_at(page, head_close(), i)
                &&& forall|j: int| 0 <= j < i ==> !#[trigger] occurs_at(page, head_close(), j)
                &&& injected_page(page, injected).skip(i + injected.len()).take(7) == head_close()
            }
        }),
{
    lemma_find_from_props(page, head_close(), 0);
    let i = find_from(page, head_close(), 0);
    let r = injected_page(page, injected);
    if i >= 0 {
        assert(r == page.take(i) + injected + page.skip(i));
        assert(r.skip(i + injected.len()) =~= page.skip(i));
        assert(page.skip(i).take(7) =~= page.subrange(i, i + 7));
    } else {
        assert(page.take(0) =~= Seq::<char>::empty());
        assert(page.skip(0) =~= page);
        assert(r =~= page.take(0) + injected + page.skip(0));
    }
}


/// `a` names the option `name`, in either form.
pub open spec fn names_option(a: Seq<char>, name: Seq<char>) -> bool {
    let f = seq!['-', '-'] + name;
    a == f || (a.len() > f.len() && a[f.len() as int] == '=' && a.take(f.len() as int) == f)
}

proof fn lemma_arg_skips_unnamed(args: Seq<Seq<char>>, name: Seq<char>, j: int, i: int)
    requires
        1 <= j <= i,
        forall|l: int| j <= l < i ==> !names_option(#[trigger] args[l], name),
        i <= args.len(),
    ensures
        arg_from(args, name, j) == arg_from(args, name, i),
    decreases i - j,
{
    if j < i {
        let a = args[j];
        let f = flag_of(name).push('=');
        assert(!names_option(a, name));
        if a.len() >= f.len() && a.take(f.len() as int) == f {
            assert(a.take(f.len() as int)[flag_of(name).len() as int] == '=');
            assert(a.take(flag_of(name).len() as int) =~= a.take(f.len() as int).take(
                flag_of(name).len() as int,
            ));
            assert(f.take(flag_of(name).len() as int) =~= flag_of(name));
            if a.len() == flag_of(name).len() {
                assert(false);
            }
        }
        lemma_arg_skips_unnamed(args, name, j + 1, i);
    }
}

/// The first argument after the program name that names the option
/// decides: `--name value` gives the argument right after it (nothing when
/// it is last), `--name=value` gives what follows the `=`, and a command
/// line that never names the option gives nothing.
pub proof fn lemma_first_naming_argument_decides(args: Seq<Seq<char>>, name: Seq<char>, i: int)
    requires
        1 <= i <= args.len(),
        forall|l: int| 1 <= l < i ==> !names_option(#[trigger] args[l], name),
    ensures
        i == args.len() ==> arg_from(args, name, 1) is None,
        i < args.len() && args[i] == seq!['-', '-'] + name ==> arg_from(args, name, 1) == (if i + 1
            < args.len() {
            Some(args[i + 1])
        } else {
            None
        }),
        i < args.len() && args[i].len() > name.len() + 2 && args[i][name.len() + 2int] == '='
            && args[i].take(name.len() + 2int) == seq!['-', '-'] + name ==> arg_from(args, name, 1)
            == Some(args[i].skip(name.len() + 3int)),
{
    lemma_arg_skips_unnamed(args, name, 1, i);
    if i < args.len() {
        let a = args[i];
        let f = flag_of(name).push('=');
        if a.len() > name.len() + 2 && a[name.len() + 2int] == '=' && a.take(name.len() + 2int)
            == seq!['-', '-'] + name {
            assert(a.take(f.len() as int) =~= f) by {
                assert(a.take(f.len() as int) =~= a.take(name.len() + 2int).push('='));
            }
        }
        if a == seq!['-', '-'] + name {
            assert(!(a.len() >= f.len()));
        }
    }
}

/// A number and its decimal digits, without leading zeros.
pub open spec fn decimal_digits(n: nat) -> Seq<char>
    decreases n,
{
    if n < 10 {
        seq![(48 + n) as char]
    } else {
        decimal_digits(n / 10).push((48 + n % 10) as char)
    }
}

proof fn lemma_decimal_digits_value(n: nat)
    ensures
        all_digits(decimal_digits(n)),
        decimal_digits(n).len() > 0,
        decimal_digits(n)[0] != '+',
        decimal_value(decimal_digits(n)) == n,
    decreases n,
{
    if n < 10 {
        let d = decimal_digits(n);
        assert(d.drop_last() =~= Seq::<char>::empty());
        assert(((48 + n) as char as u32) == 48 + n);
        assert(decimal_value(Seq::<char>::empty()) == 0);
        assert(d.last() == (48 + n) as char);
    } else {
        lemma_decimal_digits_value(n / 10);
        let d = decimal_digits(n);
        let c = (48 + n % 10) as char;
        assert(d.drop_last() == decimal_digits(n / 10));
        assert((c as u32) == 48 + n % 10);
        assert(d.last() == c);
        assert((n / 10) * 10 + n % 10 == n) by (nonlinear_arith);
        assert forall|j: int| 0 <= j < d.len() implies is_digit(#[trigger] d[j]) by {
            if j < d.len() - 1 {
                assert(d[j] == decimal_digits(n / 10)[j]);
            }
        }
        assert(d[0] == decimal_digits(n / 10)[0]);
    }
}

/// Every port number reads back as itself, written in decimal with or
/// without a leading `+`, and nothing above 65535 reads as a port.
pub proof fn lemma_port_numbers_read_back(n: nat)
    ensures
        n <= 65535 ==> port_value(decimal_digits(n)) == Some(n as u16),
        n <= 65535 ==> port_value(seq!['+'] + decimal_digits(n)) == Some(n as u16),
        n > 65535 ==> port_value(decimal_digits(n)) is None,
{
    lemma_decimal_digits_value(n);
    let d = decimal_digits(n);
    assert((seq!['+'] + d).drop_first() =~= d);
    assert((seq!['+'] + d)[0] == '+');
}

/// A leading `\\?\` is removed, and only that: a path that does not start
/// with it is kept whole.
pub proof fn lemma_verbatim_prefix_removed(s: Seq<char>)
    ensures
        without_verbatim_prefix(verbatim_prefix() + s) == s,
        !(s.len() >= 4 && s.take(4) == verbatim_prefix()) ==> without_verbatim_prefix(s) == s,
{
    let t = verbatim_prefix() + s;
    assert(t.take(4) =~= verbatim_prefix());
    assert(t.skip(4) =~= s);
}

} // verus!
