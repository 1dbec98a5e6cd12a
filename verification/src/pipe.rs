//! Which pipe deliveries are messages, and which are zellij's punctuation.
use crate::text::{chars_of, is_blank, is_whitespace, spec_is_blank, spec_is_whitespace};
use vstd::prelude::*;

verus! {

/// The blank follow-up zellij sends after every CLI pipe: a CLI delivery
/// whose payload is absent or trims to nothing.
pub open spec fn spec_is_cli_blank_twin(from_cli: bool, payload: Option<Seq<char>>) -> bool {
    from_cli && match payload {
        None => true,
        Some(p) => spec_is_blank(p),
    }
}

/// Is this delivery zellij's own end-of-stream marker rather than a caller's
/// message? Only a CLI blank is punctuation; a keybind's payload-less
/// delivery is a press.
pub fn is_cli_blank_twin(from_cli: bool, payload: Option<&str>) -> (r: bool)
    ensures
        r == spec_is_cli_blank_twin(
            from_cli,
            match payload {
                Some(p) => Some(p@),
                None => None,
            },
        ),
{
    from_cli && match payload {
        None => true,
        Some(p) => is_blank(p),
    }
}

/// A delivery that is not from the CLI is never punctuation, and a CLI
/// delivery with a non-blank payload is always a message.
pub proof fn law_only_blank_cli_deliveries_are_twins(from_cli: bool, payload: Option<Seq<char>>)
    ensures
        !from_cli ==> !spec_is_cli_blank_twin(from_cli, payload),
        from_cli && payload is None ==> spec_is_cli_blank_twin(from_cli, payload),
        (payload matches Some(p) && exists|i: int|
            0 <= i < p.len() && !crate::text::spec_is_whitespace(#[trigger] p[i]))
            ==> !spec_is_cli_blank_twin(from_cli, payload),
{
}

/// The text without its leading whitespace.
pub open spec fn spec_trim_start(s: Seq<char>) -> Seq<char>
    decreases s.len(),
{
    if s.len() > 0 && spec_is_whitespace(s[0]) {
        spec_trim_start(s.drop_first())
    } else {
        s
    }
}

/// The text without its trailing whitespace.
pub open spec fn spec_trim_end(s: Seq<char>) -> Seq<char>
    decreases s.len(),
{
    if s.len() > 0 && spec_is_whitespace(s.last()) {
        spec_trim_end(s.drop_last())
    } else {
        s
    }
}

/// The text without leading or trailing whitespace, as `str::trim` leaves
/// it.
pub open spec fn spec_trim(s: Seq<char>) -> Seq<char> {
    spec_trim_end(spec_trim_start(s))
}

/// An ASCII decimal digit.
pub open spec fn spec_is_digit(c: char) -> bool {
    '0' <= c && c <= '9'
}

/// The number a run of decimal digits spells.
pub open spec fn spec_digits_value(d: Seq<char>) -> int
    decreases d.len(),
{
    if d.len() == 0 {
        0
    } else {
        spec_digits_value(d.drop_last()) * 10 + (d.last() as u32 - '0' as u32)
    }
}

/// The digits after an optional leading `+`.
pub open spec fn spec_unsigned_digits(s: Seq<char>) -> Seq<char> {
    if s.len() > 0 && s[0] == '+' {
        s.drop_first()
    } else {
        s
    }
}

/// Every character is a decimal digit.
pub open spec fn spec_all_digits(d: Seq<char>) -> bool {
    forall|i: int| 0 <= i < d.len() ==> spec_is_digit(#[trigger] d[i])
}

/// What `usize::from_str` accepts: an optional `+`, then one or more
/// decimal digits spelling a number that fits.
pub open spec fn spec_parse_usize(s: Seq<char>) -> Option<usize> {
    let d = spec_unsigned_digits(s);
    if d.len() == 0 || !spec_all_digits(d) {
        None
    } else if spec_digits_value(d) <= usize::MAX {
        Some(spec_digits_value(d) as usize)
    } else {
        None
    }
}

/// The tab id a `clave-visited` payload names: the trimmed text, read as
/// an unsigned number.
pub open spec fn spec_parse_visited(text: Seq<char>) -> Option<usize> {
    spec_parse_usize(spec_trim(text))
}

/// A run of digits spells no less than any run it starts with.
proof fn lemma_digits_value_grows(d: Seq<char>, k: int)
    requires
        0 <= k <= d.len(),
        forall|i: int| 0 <= i < d.len() ==> spec_is_digit(#[trigger] d[i]),
    ensures
        0 <= spec_digits_value(d.take(k)) <= spec_digits_value(d),
    decreases d.len(),
{
    if d.len() > 0 {
        let p = d.drop_last();
        assert forall|i: int| 0 <= i < p.len() implies spec_is_digit(#[trigger] p[i]) by {
            assert(p[i] == d[i]);
        }
        assert(spec_is_digit(d[d.len() - 1]));
        if k == d.len() {
            assert(d.take(k) =~= d);
            lemma_digits_value_grows(p, p.len() as int);
            assert(p.take(p.len() as int) =~= p);
        } else {
            lemma_digits_value_grows(p, k);
            assert(p.take(k) =~= d.take(k));
            lemma_digits_value_grows(p, p.len() as int);
            assert(p.take(p.len() as int) =~= p);
        }
    } else {
        assert(d.take(k) =~= d);
    }
}

/// Reads a run of characters, between `lo` and `hi`, as `usize::from_str`
/// reads it.
fn parse_usize_range(cs: &Vec<char>, lo: usize, hi: usize) -> (r: Option<usize>)
    requires
        lo <= hi <= cs.len(),
    ensures
        r == spec_parse_usize(cs@.subrange(lo as int, hi as int)),
{
    let ghost s = cs@.subrange(lo as int, hi as int);
    proof {
        if lo < hi {
            assert(s[0] == cs@[lo as int]);
        }
    }
    let mut k = lo;
    if lo < hi && cs[lo] == '+' {
        k = lo + 1;
    }
    let ghost d = cs@.subrange(k as int, hi as int);
    proof {
        if lo < hi && cs@[lo as int] == '+' {
            assert(d =~= s.drop_first());
        } else {
            assert(d =~= s);
        }
    }
    if k == hi {
        return None;
    }
    let mut acc: usize = 0;
    let mut p = k;
    while p < hi
        invariant
            k <= p <= hi,
            hi <= cs.len(),
            d == cs@.subrange(k as int, hi as int),
            s == cs@.subrange(lo as int, hi as int),
            d == spec_unsigned_digits(s),
            d.len() > 0,
            forall|i: int| 0 <= i < p - k ==> spec_is_digit(#[trigger] d[i]),
            acc == spec_digits_value(d.take(p - k)),
        decreases hi - p,
    {
        let c = cs[p];
        if !('0' <= c && c <= '9') {
            proof {
                assert(d[p - k] == c);
                assert(!spec_is_digit(d[p - k]));
                assert(!spec_all_digits(d));
            }
            return None;
        }
        let dg = (c as u32 - '0' as u32) as u128;
        let next: u128 = (acc as u128) * 10 + dg;
        proof {
            assert(d.take(p - k + 1).drop_last() =~= d.take(p - k));
            assert(d.take(p - k + 1).last() == c);
        }
        if next > usize::MAX as u128 {
            proof {
                assert(d[p - k] == c);
                if spec_all_digits(d) {
                    lemma_digits_value_grows(d, p - k + 1);
                    assert(spec_digits_value(d.take(p - k + 1)) == next);
                }
            }
            return None;
        }
        acc = next as usize;
        p = p + 1;
    }
    proof {
        assert(d.take(d.len() as int) =~= d);
    }
    Some(acc)
}

/// The tab id a `clave-visited` payload names: surrounding whitespace
/// dropped, then the rest read as an unsigned number, or nothing when it
/// is not one.
pub fn parse_visited(text: &str) -> (r: Option<usize>)
    ensures
        r == spec_parse_visited(text@),
{
    let cs = chars_of(text);
    let mut i: usize = 0;
    proof {
        assert(cs@.subrange(0, cs@.len() as int) =~= cs@);
    }
    while i < cs.len() && is_whitespace(cs[i])
        invariant
            i <= cs.len(),
            cs@ == text@,
            spec_trim_start(text@) == spec_trim_start(cs@.subrange(i as int, cs@.len() as int)),
        decreases cs.len() - i,
    {
        proof {
            let t = cs@.subrange(i as int, cs@.len() as int);
            assert(t.drop_first() =~= cs@.subrange(i + 1, cs@.len() as int));
        }
        i = i + 1;
    }
    proof {
        assert(cs@.subrange(0, cs@.len() as int) =~= cs@);
        let t = cs@.subrange(i as int, cs@.len() as int);
        if i < cs.len() {
            assert(t[0] == cs@[i as int]);
        }
        assert(spec_trim_start(t) == t);
    }
    let mut j: usize = cs.len();
    while j > i && is_whitespace(cs[j - 1])
        invariant
            i <= j <= cs.len(),
            cs@ == text@,
            spec_trim(text@) == spec_trim_end(cs@.subrange(i as int, j as int)),
        decreases j - i,
    {
        proof {
            let t = cs@.subrange(i as int, j as int);
            assert(t.drop_last() =~= cs@.subrange(i as int, j - 1));
            assert(t.last() == cs@[j - 1]);
        }
        j = j - 1;
    }
    proof {
        let t = cs@.subrange(i as int, j as int);
        if j > i {
            assert(t.last() == cs@[j - 1]);
        }
        assert(spec_trim_end(t) == t);
    }
    parse_usize_range(&cs, i, j)
}

} // verus!
