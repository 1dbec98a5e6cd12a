//! Text primitives the rows are built from: character access, whitespace,
//! path components, the foreground-command summary and the elapsed label.
use vstd::prelude::*;

verus! {

broadcast use vstd::string::group_string_axioms;

/// The characters of a string slice, in order.
pub fn chars_of(s: &str) -> (r: Vec<char>)
    ensures
        r@ == s@,
{
    let mut out: Vec<char> = Vec::new();
    for c in it: s.chars()
        invariant
            out.len() == it.index(),
            forall|i: int| 0 <= i < out.len() ==> out@[i] == it.seq()[i],
            it.seq() == s@,
    {
        out.push(c);
    }
    proof {
        assert(out@ =~= s@);
    }
    out
}

} // verus!

verus! {

/// Whether two string slices hold the same characters.
pub fn str_eq(a: &str, b: &str) -> (r: bool)
    ensures
        r == (a@ == b@),
{
    let x = chars_of(a);
    let y = chars_of(b);
    chars_eq(&x, &y)
}

/// Whether two character vectors are equal.
pub fn chars_eq(x: &Vec<char>, y: &Vec<char>) -> (r: bool)
    ensures
        r == (x@ == y@),
{
    if x.len() != y.len() {
        return false;
    }
    let mut i: usize = 0;
    while i < x.len()
        invariant
            x.len() == y.len(),
            i <= x.len(),
            forall|j: int| 0 <= j < i ==> x@[j] == y@[j],
        decreases x.len() - i,
    {
        if x[i] != y[i] {
            return false;
        }
        i = i + 1;
    }
    assert(x@ =~= y@);
    true
}

/// Wraps `String::push`: afterwards the string holds its old characters
/// followed by `c`.
#[verifier::external_body]
fn push_char(s: &mut String, c: char)
    ensures
        final(s)@ == old(s)@.push(c),
{
    s.push(c)
}

/// A string holding exactly the given characters.
pub fn string_of(cs: &[char]) -> (r: String)
    ensures
        r@ == cs@,
{
    let mut out = String::new();
    let mut i: usize = 0;
    while i < cs.len()
        invariant
            i <= cs@.len(),
            out@ == cs@.subrange(0, i as int),
        decreases cs.len() - i,
    {
        push_char(&mut out, cs[i]);
        assert(cs@.subrange(0, (i + 1) as int) =~= cs@.subrange(0, i as int).push(cs@[i as int]));
        i = i + 1;
    }
    assert(cs@.subrange(0, cs@.len() as int) =~= cs@);
    out
}

/// Unicode `White_Space`, the property `char::is_whitespace` tests.
pub open spec fn spec_is_whitespace(c: char) -> bool {
    let u = c as u32;
    (0x9 <= u && u <= 0xD) || u == 0x20 || u == 0x85 || u == 0xA0 || u == 0x1680 || (0x2000 <= u
        && u <= 0x200A) || u == 0x2028 || u == 0x2029 || u == 0x202F || u == 0x205F || u == 0x3000
}

/// Whether `c` is Unicode whitespace.
pub fn is_whitespace(c: char) -> (r: bool)
    ensures
        r == spec_is_whitespace(c),
{
    let u = c as u32;
    (0x9 <= u && u <= 0xD) || u == 0x20 || u == 0x85 || u == 0xA0 || u == 0x1680 || (0x2000 <= u
        && u <= 0x200A) || u == 0x2028 || u == 0x2029 || u == 0x202F || u == 0x205F || u == 0x3000
}

/// Unicode general category `Cc`, the property `char::is_control` tests.
pub open spec fn spec_is_control(c: char) -> bool {
    let u = c as u32;
    u < 0x20 || (0x7F <= u && u <= 0x9F)
}

/// Whether `c` is a control character.
pub fn is_control(c: char) -> (r: bool)
    ensures
        r == spec_is_control(c),
{
    let u = c as u32;
    u < 0x20 || (0x7F <= u && u <= 0x9F)
}

/// The text with every control character replaced by a space.
pub open spec fn spec_printable(s: Seq<char>) -> Seq<char> {
    s.map_values(|c: char| if spec_is_control(c) { ' ' } else { c })
}

/// The characters with every control character replaced by a space.
pub fn printable_chars(cs: &Vec<char>) -> (r: Vec<char>)
    ensures
        r@ == spec_printable(cs@),
{
    let mut out: Vec<char> = Vec::new();
    let mut i: usize = 0;
    while i < cs.len()
        invariant
            i <= cs.len(),
            out@ == spec_printable(cs@.subrange(0, i as int)),
        decreases cs.len() - i,
    {
        let c = cs[i];
        let shown = if is_control(c) {
            ' '
        } else {
            c
        };
        out.push(shown);
        proof {
            assert(spec_printable(cs@.subrange(0, (i + 1) as int)) =~= spec_printable(
                cs@.subrange(0, i as int),
            ).push(shown));
        }
        i = i + 1;
    }
    proof {
        assert(cs@.subrange(0, cs@.len() as int) =~= cs@);
    }
    out
}

/// Agent-authored text made safe to lay out: a control character (a
/// newline measures as no cells at all) becomes a space, which keeps the
/// word boundary that dropping it would lose.
pub fn printable(s: &str) -> (r: String)
    ensures
        r@ == spec_printable(s@),
{
    let cs = chars_of(s);
    let out = printable_chars(&cs);
    string_of(out.as_slice())
}

/// A string is blank when every character is whitespace (the empty string
/// included): what `trim().is_empty()` decides.
pub open spec fn spec_is_blank(s: Seq<char>) -> bool {
    forall|i: int| 0 <= i < s.len() ==> spec_is_whitespace(#[trigger] s[i])
}

/// Whether `s` trims to nothing.
pub fn is_blank(s: &str) -> (r: bool)
    ensures
        r == spec_is_blank(s@),
{
    let cs = chars_of(s);
    let mut i: usize = 0;
    while i < cs.len()
        invariant
            cs@ == s@,
            i <= cs@.len(),
            forall|j: int| 0 <= j < i ==> spec_is_whitespace(#[trigger] cs@[j]),
        decreases cs.len() - i,
    {
        if !is_whitespace(cs[i]) {
            return false;
        }
        i = i + 1;
    }
    true
}

} // verus!

verus! {

/// `s` without its trailing `/` characters.
pub open spec fn spec_trim_slashes(s: Seq<char>) -> Seq<char>
    decreases s.len(),
{
    if s.len() > 0 && s.last() == '/' {
        spec_trim_slashes(s.drop_last())
    } else {
        s
    }
}

/// The characters after the last `/` of `s` (all of `s` when it has none).
pub open spec fn spec_last_component(s: Seq<char>) -> Seq<char>
    decreases s.len(),
{
    if s.len() == 0 || s.last() == '/' {
        Seq::empty()
    } else {
        spec_last_component(s.drop_last()).push(s.last())
    }
}

/// The last non-empty `/`-separated component of a path; empty when there
/// is none.
pub open spec fn spec_basename(s: Seq<char>) -> Seq<char> {
    spec_last_component(spec_trim_slashes(s))
}

/// The last non-empty `/`-separated component of `path`.
pub fn basename(path: &str) -> (r: Vec<char>)
    ensures
        r@ == spec_basename(path@),
{
    let cs = chars_of(path);
    let ghost s = cs@;
    let mut e: usize = cs.len();
    assert(s.subrange(0, s.len() as int) =~= s);
    while e > 0 && cs[e - 1] == '/'
        invariant
            cs@ == s,
            e <= s.len(),
            spec_trim_slashes(s) == spec_trim_slashes(s.subrange(0, e as int)),
        decreases e,
    {
        assert(s.subrange(0, e as int).drop_last() =~= s.subrange(0, e - 1));
        e = e - 1;
    }
    let ghost t = s.subrange(0, e as int);
    assert(spec_trim_slashes(s) == t);
    let mut b: usize = e;
    while b > 0 && cs[b - 1] != '/'
        invariant
            cs@ == s,
            b <= e <= s.len(),
            t == s.subrange(0, e as int),
            spec_last_component(t) == spec_last_component(s.subrange(0, b as int)) + s.subrange(
                b as int,
                e as int,
            ),
        decreases b,
    {
        let ghost p = s.subrange(0, b as int);
        assert(p.drop_last() =~= s.subrange(0, b - 1));
        assert(spec_last_component(p) == spec_last_component(s.subrange(0, b - 1)).push(
            s[b - 1],
        ));
        assert(spec_last_component(s.subrange(0, b - 1)).push(s[b - 1]) + s.subrange(
            b as int,
            e as int,
        ) =~= spec_last_component(s.subrange(0, b - 1)) + s.subrange(b - 1, e as int));
        b = b - 1;
    }
    assert(spec_last_component(s.subrange(0, b as int)) =~= Seq::<char>::empty());
    assert(spec_last_component(t) =~= s.subrange(b as int, e as int));
    let mut out: Vec<char> = Vec::new();
    let mut i: usize = b;
    while i < e
        invariant
            cs@ == s,
            b <= i <= e <= s.len(),
            out@ == s.subrange(b as int, i as int),
        decreases e - i,
    {
        out.push(cs[i]);
        assert(s.subrange(b as int, (i + 1) as int) =~= s.subrange(b as int, i as int).push(
            s[i as int],
        ));
        i = i + 1;
    }
    out
}

/// `s` without its leading `-` characters (a login shell's dashed argv0).
pub open spec fn spec_strip_dashes(s: Seq<char>) -> Seq<char>
    decreases s.len(),
{
    if s.len() > 0 && s[0] == '-' {
        spec_strip_dashes(s.drop_first())
    } else {
        s
    }
}

fn strip_dashes(cs: &Vec<char>) -> (r: Vec<char>)
    ensures
        r@ == spec_strip_dashes(cs@),
{
    let ghost s = cs@;
    let mut k: usize = 0;
    assert(s.subrange(0, s.len() as int) =~= s);
    while k < cs.len() && cs[k] == '-'
        invariant
            cs@ == s,
            k <= s.len(),
            spec_strip_dashes(s) == spec_strip_dashes(s.subrange(k as int, s.len() as int)),
        decreases s.len() - k,
    {
        assert(s.subrange(k as int, s.len() as int).drop_first() =~= s.subrange(
            k + 1,
            s.len() as int,
        ));
        k = k + 1;
    }
    let mut out: Vec<char> = Vec::new();
    let mut i: usize = k;
    while i < cs.len()
        invariant
            cs@ == s,
            k <= i <= s.len(),
            out@ == s.subrange(k as int, i as int),
        decreases s.len() - i,
    {
        out.push(cs[i]);
        assert(s.subrange(k as int, (i + 1) as int) =~= s.subrange(k as int, i as int).push(
            s[i as int],
        ));
        i = i + 1;
    }
    out
}

/// The foreground argv0 names that are the shell itself at its prompt.
pub open spec fn spec_is_shell(b: Seq<char>) -> bool {
    b == "zsh"@ || b == "bash"@ || b == "fish"@ || b == "sh"@ || b == "dash"@ || b == "nu"@ || b
        == "ksh"@ || b == "tcsh"@ || b == "pwsh"@
}

fn is_shell(b: &Vec<char>) -> (r: bool)
    ensures
        r == spec_is_shell(b@),
{
    chars_eq(b, &chars_of("zsh")) || chars_eq(b, &chars_of("bash")) || chars_eq(
        b,
        &chars_of("fish"),
    ) || chars_eq(b, &chars_of("sh")) || chars_eq(b, &chars_of("dash")) || chars_eq(
        b,
        &chars_of("nu"),
    ) || chars_eq(b, &chars_of("ksh")) || chars_eq(b, &chars_of("tcsh")) || chars_eq(
        b,
        &chars_of("pwsh"),
    )
}

/// The arguments, each preceded by one space.
pub open spec fn spec_join_args(args: Seq<Seq<char>>) -> Seq<char>
    decreases args.len(),
{
    if args.len() == 0 {
        Seq::empty()
    } else {
        spec_join_args(args.drop_last()) + seq![' '] + args.last()
    }
}

/// The views of a slice of strings.
pub open spec fn views(v: Seq<String>) -> Seq<Seq<char>> {
    v.map_values(|s: String| s@)
}

/// The summary-cell text for a foreground argv: the basename of argv0 with
/// any login dash stripped, then the remaining arguments space-separated;
/// `None` when there is no argv0, it is empty, or it is a shell.
pub open spec fn spec_command_display(argv: Seq<Seq<char>>) -> Option<Seq<char>> {
    if argv.len() == 0 {
        None
    } else {
        let bin = spec_strip_dashes(spec_basename(argv[0]));
        if bin.len() == 0 || spec_is_shell(bin) {
            None
        } else {
            Some(bin + spec_join_args(argv.drop_first()))
        }
    }
}

/// The summary-cell text for a foreground argv, or `None` at a shell prompt.
pub fn command_display(argv: &[String]) -> (r: Option<String>)
    ensures
        r matches Some(s) ==> spec_command_display(views(argv@)) == Some(s@),
        r is None ==> spec_command_display(views(argv@)) is None,
{
    if argv.len() == 0 {
        return None;
    }
    let head = basename(argv[0].as_str());
    let bin = strip_dashes(&head);
    if bin.len() == 0 || is_shell(&bin) {
        return None;
    }
    let ghost a = views(argv@);
    let mut out = bin;
    let mut i: usize = 1;
    while i < argv.len()
        invariant
            1 <= i <= argv@.len(),
            a == views(argv@),
            out@ == spec_strip_dashes(spec_basename(a[0])) + spec_join_args(
                a.subrange(1, i as int),
            ),
        decreases argv.len() - i,
    {
        let ghost before = out@;
        out.push(' ');
        let arg = chars_of(argv[i].as_str());
        let mut j: usize = 0;
        while j < arg.len()
            invariant
                j <= arg@.len(),
                out@ == before + seq![' '] + arg@.subrange(0, j as int),
            decreases arg.len() - j,
        {
            out.push(arg[j]);
            assert(arg@.subrange(0, (j + 1) as int) =~= arg@.subrange(0, j as int).push(
                arg@[j as int],
            ));
            j = j + 1;
        }
        assert(arg@.subrange(0, arg@.len() as int) =~= arg@);
        assert(a.subrange(1, (i + 1) as int).drop_last() =~= a.subrange(1, i as int));
        assert(a.subrange(1, (i + 1) as int).last() == a[i as int]);
        assert(out@ =~= spec_strip_dashes(spec_basename(a[0])) + spec_join_args(
            a.subrange(1, (i + 1) as int),
        ));
        i = i + 1;
    }
    assert(a.subrange(1, argv@.len() as int) =~= a.drop_first());
    Some(string_of(out.as_slice()))
}

} // verus!

verus! {

/// The ASCII digit for `d < 10`.
pub open spec fn spec_digit(d: nat) -> char {
    if d == 0 {
        '0'
    } else if d == 1 {
        '1'
    } else if d == 2 {
        '2'
    } else if d == 3 {
        '3'
    } else if d == 4 {
        '4'
    } else if d == 5 {
        '5'
    } else if d == 6 {
        '6'
    } else if d == 7 {
        '7'
    } else if d == 8 {
        '8'
    } else {
        '9'
    }
}

/// The decimal representation of `n`, no leading zeros.
pub open spec fn spec_decimal(n: nat) -> Seq<char>
    decreases n,
{
    if n < 10 {
        seq![spec_digit(n)]
    } else {
        spec_decimal(n / 10).push(spec_digit(n % 10))
    }
}

fn digit(d: u64) -> (c: char)
    requires
        d < 10,
    ensures
        c == spec_digit(d as nat),
{
    if d == 0 {
        '0'
    } else if d == 1 {
        '1'
    } else if d == 2 {
        '2'
    } else if d == 3 {
        '3'
    } else if d == 4 {
        '4'
    } else if d == 5 {
        '5'
    } else if d == 6 {
        '6'
    } else if d == 7 {
        '7'
    } else if d == 8 {
        '8'
    } else {
        '9'
    }
}

/// Appends the decimal representation of `n`.
pub fn push_decimal(out: &mut Vec<char>, n: u64)
    ensures
        final(out)@ == old(out)@ + spec_decimal(n as nat),
    decreases n,
{
    if n >= 10 {
        push_decimal(out, n / 10);
    }
    out.push(digit(n % 10));
    proof {
        if n >= 10 {
            assert(old(out)@ + spec_decimal((n / 10) as nat) + seq![spec_digit((n % 10) as nat)]
                =~= old(out)@ + spec_decimal(n as nat));
        } else {
            assert(old(out)@.push(spec_digit(n as nat)) =~= old(out)@ + spec_decimal(n as nat));
        }
    }
}

/// The elapsed cell: minutes, hours, days or weeks since `then`, each unit
/// taking over at one of itself; `None` when `then` is 0 (never).
pub open spec fn spec_elapsed_label(now: u64, then: u64) -> Option<Seq<char>> {
    if then == 0 {
        None
    } else {
        let s: nat = if now >= then { (now - then) as nat } else { 0 };
        Some(
            if s < 3600 {
                spec_decimal(s / 60).push('m')
            } else if s < 86400 {
                spec_decimal(s / 3600).push('h')
            } else if s < 604800 {
                spec_decimal(s / 86400).push('d')
            } else {
                spec_decimal(s / 604800).push('w')
            },
        )
    }
}

/// The elapsed cell text for an interaction at `then`, read at `now`.
pub fn elapsed_label(now: u64, then: u64) -> (r: Option<String>)
    ensures
        r matches Some(s) ==> spec_elapsed_label(now, then) == Some(s@),
        r is None <==> spec_elapsed_label(now, then) is None,
{
    if then == 0 {
        return None;
    }
    let s: u64 = if now >= then { now - then } else { 0 };
    let mut out: Vec<char> = Vec::new();
    if s < 3600 {
        push_decimal(&mut out, s / 60);
        out.push('m');
    } else if s < 86400 {
        push_decimal(&mut out, s / 3600);
        out.push('h');
    } else if s < 604800 {
        push_decimal(&mut out, s / 86400);
        out.push('d');
    } else {
        push_decimal(&mut out, s / 604800);
        out.push('w');
    }
    assert(out@ == spec_elapsed_label(now, then)->0);
    Some(string_of(out.as_slice()))
}

/// `cwd` lies inside the checkout rooted at `root`: equal to it, or below it
/// with a `/` right after the root.
pub open spec fn spec_within(cwd: Seq<char>, root: Seq<char>) -> bool {
    cwd == root || (root.len() < cwd.len() && cwd.subrange(0, root.len() as int) == root
        && cwd[root.len() as int] == '/')
}

/// Whether `cwd` lies inside the checkout rooted at `root`.
pub fn within(cwd: &Vec<char>, root: &Vec<char>) -> (r: bool)
    ensures
        r == spec_within(cwd@, root@),
{
    if chars_eq(cwd, root) {
        return true;
    }
    if root.len() >= cwd.len() {
        return false;
    }
    let mut i: usize = 0;
    while i < root.len()
        invariant
            root.len() < cwd.len(),
            i <= root.len(),
            forall|j: int| 0 <= j < i ==> cwd@[j] == root@[j],
        decreases root.len() - i,
    {
        if cwd[i] != root[i] {
            assert(cwd@.subrange(0, root@.len() as int)[i as int] != root@[i as int]);
            return false;
        }
        i = i + 1;
    }
    assert(cwd@.subrange(0, root@.len() as int) =~= root@);
    cwd[root.len()] == '/'
}

} // verus!

verus! {

/// Whether two optional strings hold the same text (or are both absent).
pub fn opt_str_eq(a: &Option<String>, b: &Option<String>) -> (r: bool)
    ensures
        r == (match (a, b) {
            (Some(x), Some(y)) => x@ == y@,
            (None, None) => true,
            _ => false,
        }),
{
    match (a, b) {
        (Some(x), Some(y)) => *x == *y,
        (None, None) => true,
        _ => false,
    }
}

/// An equal copy of an optional string.
pub fn copy_opt_string(o: &Option<String>) -> (r: Option<String>)
    ensures
        r == *o,
{
    match o {
        Some(s) => Some(s.clone()),
        None => None,
    }
}

} // verus!
