//! Row decoration that depends on the store's rows alone: provenance, the
//! branch cell, string ordering, and the provisional ink allocation.
use crate::render::{Provenance, PALETTE_LEN};
use crate::types::Agent;
use vstd::prelude::*;

verus! {

/// The branch reads as an ordinary checkout of the repo's default branch:
/// empty (no repo), the host's git-failure sentinel `-`, or the resolved
/// default (main/master when the host could not resolve one).
pub open spec fn spec_is_default_checkout(a: Agent) -> bool {
    a.branch@.len() == 0 || a.branch@ == "-"@ || match a.default_branch {
        Some(d) => a.branch@ == d@,
        None => a.branch@ == "main"@ || a.branch@ == "master"@,
    }
}

/// Three-state provenance: a worktree, the ordinary default checkout
/// (which renders nothing), or a branch.
pub open spec fn spec_provenance(a: Agent) -> Provenance {
    if a.worktree is Some {
        Provenance::Worktree
    } else if spec_is_default_checkout(a) {
        Provenance::Main
    } else {
        Provenance::Branch
    }
}

/// Whether the agent's branch is the ordinary default checkout.
pub fn is_default_checkout(a: &Agent) -> (r: bool)
    ensures
        r == spec_is_default_checkout(*a),
{
    if a.branch.as_str().is_empty() {
        return true;
    }
    let dash = String::from_str("-");
    if a.branch == dash {
        return true;
    }
    match &a.default_branch {
        Some(d) => a.branch == *d,
        None => {
            let main = String::from_str("main");
            let master = String::from_str("master");
            a.branch == main || a.branch == master
        },
    }
}

/// The agent's provenance glyph.
pub fn provenance_of(a: &Agent) -> (r: Provenance)
    ensures
        r == spec_provenance(*a),
{
    if a.worktree.is_some() {
        Provenance::Worktree
    } else if is_default_checkout(a) {
        Provenance::Main
    } else {
        Provenance::Branch
    }
}

/// The branch cell: blank on exactly the predicate that renders the
/// provenance blank, the branch name otherwise.
pub open spec fn spec_branch_cell(a: Agent) -> Seq<char> {
    if spec_is_default_checkout(a) {
        Seq::empty()
    } else {
        a.branch@
    }
}

/// The branch cell's text.
pub fn branch_cell(a: &Agent) -> (r: String)
    ensures
        r@ == spec_branch_cell(*a),
{
    if is_default_checkout(a) {
        String::new()
    } else {
        a.branch.clone()
    }
}

/// String order: code point by code point, a proper prefix first (the
/// order of `str`, whose UTF-8 byte order is code point order).
pub open spec fn lex_lt(a: Seq<char>, b: Seq<char>) -> bool
    decreases a.len(),
{
    if a.len() == 0 {
        b.len() > 0
    } else if b.len() == 0 {
        false
    } else if a[0] != b[0] {
        (a[0] as u32) < (b[0] as u32)
    } else {
        lex_lt(a.drop_first(), b.drop_first())
    }
}

/// No string sorts before itself.
proof fn lemma_lex_lt_irreflexive(a: Seq<char>)
    ensures
        !lex_lt(a, a),
    decreases a.len(),
{
    if a.len() > 0 {
        lemma_lex_lt_irreflexive(a.drop_first());
    }
}

/// Two strings never sort before each other.
proof fn lemma_lex_lt_asymmetric(a: Seq<char>, b: Seq<char>)
    ensures
        lex_lt(a, b) ==> !lex_lt(b, a),
    decreases a.len(),
{
    if a.len() > 0 && b.len() > 0 && a[0] == b[0] {
        lemma_lex_lt_asymmetric(a.drop_first(), b.drop_first());
    }
}

/// String order is transitive.
proof fn lemma_lex_lt_transitive(a: Seq<char>, b: Seq<char>, c: Seq<char>)
    ensures
        lex_lt(a, b) && lex_lt(b, c) ==> lex_lt(a, c),
    decreases a.len(),
{
    if a.len() > 0 && b.len() > 0 && c.len() > 0 && a[0] == b[0] && b[0] == c[0] {
        lemma_lex_lt_transitive(a.drop_first(), b.drop_first(), c.drop_first());
    }
}

/// Two different strings are ordered one way or the other.
proof fn lemma_lex_lt_total(a: Seq<char>, b: Seq<char>)
    ensures
        a != b ==> lex_lt(a, b) || lex_lt(b, a),
    decreases a.len(),
{
    if a.len() == 0 && b.len() == 0 {
        assert(a =~= b);
    } else if a.len() > 0 && b.len() > 0 && a[0] == b[0] {
        if a.drop_first() == b.drop_first() {
            assert(a =~= seq![a[0]] + a.drop_first());
            assert(b =~= seq![b[0]] + b.drop_first());
        }
        lemma_lex_lt_total(a.drop_first(), b.drop_first());
    } else if a.len() > 0 && b.len() > 0 {
        let x = a[0];
        let y = b[0];
        if (x as u32) == (y as u32) {
            vstd::utf8::char_u32_cast(x, x as u32);
            vstd::utf8::char_u32_cast(y, y as u32);
        }
    }
}

/// String order is a strict total order: irreflexive, asymmetric,
/// transitive, and any two different strings are ordered one way.
pub proof fn lemma_lex_lt_total_order(a: Seq<char>, b: Seq<char>, c: Seq<char>)
    ensures
        !lex_lt(a, a),
        lex_lt(a, b) ==> !lex_lt(b, a),
        lex_lt(a, b) && lex_lt(b, c) ==> lex_lt(a, c),
        a != b ==> lex_lt(a, b) || lex_lt(b, a),
{
    lemma_lex_lt_irreflexive(a);
    lemma_lex_lt_asymmetric(a, b);
    lemma_lex_lt_transitive(a, b, c);
    lemma_lex_lt_total(a, b);
}

/// Whether `a` sorts strictly before `b`.
pub fn str_lt(a: &String, b: &String) -> (r: bool)
    ensures
        r == lex_lt(a@, b@),
{
    let x = crate::text::chars_of(a.as_str());
    let y = crate::text::chars_of(b.as_str());
    let mut i: usize = 0;
    proof {
        assert(a@.subrange(0, a@.len() as int) =~= a@);
        assert(b@.subrange(0, b@.len() as int) =~= b@);
    }
    while i < x.len() && i < y.len() && x[i] == y[i]
        invariant
            x@ == a@,
            y@ == b@,
            i <= x@.len(),
            i <= y@.len(),
            lex_lt(a@, b@) == lex_lt(a@.subrange(i as int, a@.len() as int), b@.subrange(
                i as int,
                b@.len() as int,
            )),
        decreases x.len() - i,
    {
        proof {
            let sa = a@.subrange(i as int, a@.len() as int);
            let sb = b@.subrange(i as int, b@.len() as int);
            assert(sa.drop_first() =~= a@.subrange(i + 1, a@.len() as int));
            assert(sb.drop_first() =~= b@.subrange(i + 1, b@.len() as int));
        }
        i = i + 1;
    }
    proof {
        assert(a@.subrange(0, a@.len() as int) =~= a@);
        assert(b@.subrange(0, b@.len() as int) =~= b@);
    }
    if i == x.len() {
        i < y.len()
    } else if i == y.len() {
        false
    } else {
        (x[i] as u32) < (y[i] as u32)
    }
}

/// A repo root that takes part in ink allocation: non-empty.
pub open spec fn has_repo(a: Agent) -> bool {
    a.repo_root@.len() > 0
}

/// The number of distinct repo roots among `agents` that sort before `r`:
/// each root counted at its first occurrence.
pub open spec fn repos_before(agents: Seq<Agent>, r: Seq<char>) -> nat
    decreases agents.len(),
{
    if agents.len() == 0 {
        0
    } else {
        let rest = agents.drop_last();
        let a = agents.last();
        let fresh = !(exists|j: int| 0 <= j < rest.len() && rest[j].repo_root@ == a.repo_root@);
        repos_before(rest, r) + if has_repo(a) && fresh && lex_lt(a.repo_root@, r) {
            1nat
        } else {
            0nat
        }
    }
}

/// Some agent carries this non-empty repo root.
pub open spec fn repo_present(agents: Seq<Agent>, r: Seq<char>) -> bool {
    r.len() > 0 && exists|j: int| 0 <= j < agents.len() && agents[j].repo_root@ == r
}

/// A repo's ink: its position among the fleet's sorted distinct repos,
/// round-robin over the palette; none for an agent outside a repo.
pub open spec fn spec_repo_ink(agents: Seq<Agent>, r: Seq<char>) -> Option<u8> {
    if repo_present(agents, r) {
        Some((repos_before(agents, r) % (PALETTE_LEN as nat)) as u8)
    } else {
        None
    }
}

/// A title that takes part in ink allocation within repo `r`.
pub open spec fn titled_in(a: Agent, r: Seq<char>) -> bool {
    has_repo(a) && a.repo_root@ == r && match a.title {
        Some(t) => t@.len() > 0,
        None => false,
    }
}

/// The agent's title text (empty when it has none).
pub open spec fn title_of(a: Agent) -> Seq<char> {
    match a.title {
        Some(t) => t@,
        None => Seq::empty(),
    }
}

/// The number of distinct titles within repo `r` that sort before `t`.
pub open spec fn titles_before(agents: Seq<Agent>, r: Seq<char>, t: Seq<char>) -> nat
    decreases agents.len(),
{
    if agents.len() == 0 {
        0
    } else {
        let rest = agents.drop_last();
        let a = agents.last();
        let fresh = !(exists|j: int|
            0 <= j < rest.len() && titled_in(rest[j], r) && title_of(rest[j]) == title_of(a));
        titles_before(rest, r, t) + if titled_in(a, r) && fresh && lex_lt(title_of(a), t) {
            1nat
        } else {
            0nat
        }
    }
}

/// Some agent of repo `r` carries this non-empty title.
pub open spec fn title_present(agents: Seq<Agent>, r: Seq<char>, t: Seq<char>) -> bool {
    exists|j: int| 0 <= j < agents.len() && titled_in(agents[j], r) && title_of(agents[j]) == t
}

/// A title chip's ink: its position among its repo's sorted distinct
/// titles, round-robin over the palette.
pub open spec fn spec_title_ink(agents: Seq<Agent>, r: Seq<char>, t: Seq<char>) -> Option<u8> {
    if title_present(agents, r, t) {
        Some((titles_before(agents, r, t) % (PALETTE_LEN as nat)) as u8)
    } else {
        None
    }
}

/// The stand-in ink allocation: one colour per repo, chips unique within a
/// repo, recomputed from every snapshot and deterministic in it.
pub struct ProvisionalInks {
    agents: Vec<Agent>,
}

impl View for ProvisionalInks {
    type V = Seq<Agent>;

    closed spec fn view(&self) -> Seq<Agent> {
        self.agents@
    }
}

impl ProvisionalInks {
    /// Allocate inks for a fleet.
    pub fn allocate(agents: &Vec<Agent>) -> (r: ProvisionalInks)
        ensures
            r@ == agents@,
    {
        let mut copy: Vec<Agent> = Vec::new();
        let mut i: usize = 0;
        while i < agents.len()
            invariant
                i <= agents@.len(),
                copy@ == agents@.subrange(0, i as int),
            decreases agents.len() - i,
        {
            copy.push(agents[i].copy());
            assert(agents@.subrange(0, (i + 1) as int) =~= agents@.subrange(0, i as int).push(
                agents@[i as int],
            ));
            i = i + 1;
        }
        assert(agents@.subrange(0, agents@.len() as int) =~= agents@);
        ProvisionalInks { agents: copy }
    }

    /// The ink of repo root `r`.
    pub fn repo_ink(&self, r: &String) -> (ink: Option<u8>)
        ensures
            ink == spec_repo_ink(self@, r@),
    {
        let ghost s = self.agents@;
        if r.as_str().is_empty() {
            return None;
        }
        let mut present = false;
        let mut n: u64 = 0;
        let mut i: usize = 0;
        while i < self.agents.len()
            invariant
                s == self.agents@,
                i <= s.len(),
                n == repos_before(s.subrange(0, i as int), r@),
                n <= i,
                present == exists|j: int| 0 <= j < i && s[j].repo_root@ == r@,
            decreases s.len() - i,
        {
            let ghost pre = s.subrange(0, i as int);
            proof {
                assert(s.subrange(0, (i + 1) as int).drop_last() =~= pre);
                assert(s.subrange(0, (i + 1) as int).last() == s[i as int]);
            }
            let a = &self.agents[i];
            if a.repo_root == *r {
                present = true;
            }
            if !a.repo_root.as_str().is_empty() && str_lt(&a.repo_root, r) {
                let mut fresh = true;
                let mut j: usize = 0;
                while j < i
                    invariant
                        s == self.agents@,
                        i < s.len(),
                        j <= i,
                        fresh == !(exists|k: int| 0 <= k < j && s[k].repo_root@ == s[i as int].repo_root@),
                    decreases i - j,
                {
                    if self.agents[j].repo_root == self.agents[i].repo_root {
                        fresh = false;
                    }
                    j = j + 1;
                }
                proof {
                    assert(forall|k: int| 0 <= k < i ==> pre[k] == s[k]);
                }
                if fresh {
                    n = n + 1;
                }
            } else {
                proof {
                    assert(forall|k: int| 0 <= k < i ==> pre[k] == s[k]);
                }
            }
            i = i + 1;
        }
        proof {
            assert(s.subrange(0, s.len() as int) =~= s);
        }
        if present {
            Some((n % 8) as u8)
        } else {
            None
        }
    }

    /// The ink of title `t` within repo root `r`.
    pub fn title_ink(&self, r: &String, t: &String) -> (ink: Option<u8>)
        ensures
            ink == spec_title_ink(self@, r@, t@),
    {
        let ghost s = self.agents@;
        let mut present = false;
        let mut n: u64 = 0;
        let mut i: usize = 0;
        while i < self.agents.len()
            invariant
                s == self.agents@,
                i <= s.len(),
                n == titles_before(s.subrange(0, i as int), r@, t@),
                n <= i,
                present == exists|j: int|
                    0 <= j < i && titled_in(s[j], r@) && title_of(s[j]) == t@,
            decreases s.len() - i,
        {
            let ghost pre = s.subrange(0, i as int);
            proof {
                assert(s.subrange(0, (i + 1) as int).drop_last() =~= pre);
                assert(s.subrange(0, (i + 1) as int).last() == s[i as int]);
            }
            let a = &self.agents[i];
            let titled = !a.repo_root.as_str().is_empty() && a.repo_root == *r && match &a.title {
                Some(x) => !x.as_str().is_empty(),
                None => false,
            };
            if titled {
                let at = match &a.title {
                    Some(x) => x,
                    None => r,
                };
                if *at == *t {
                    present = true;
                }
                if str_lt(at, t) {
                    let mut fresh = true;
                    let mut j: usize = 0;
                    while j < i
                        invariant
                            s == self.agents@,
                            i < s.len(),
                            j <= i,
                            titled_in(s[i as int], r@),
                            fresh == !(exists|k: int|
                                0 <= k < j && titled_in(s[k], r@) && title_of(s[k]) == title_of(
                                    s[i as int],
                                )),
                        decreases i - j,
                    {
                        let b = &self.agents[j];
                        let same = !b.repo_root.as_str().is_empty() && b.repo_root == *r
                            && match (&b.title, &self.agents[i].title) {
                            (Some(x), Some(y)) => !x.as_str().is_empty() && *x == *y,
                            _ => false,
                        };
                        if same {
                            fresh = false;
                        }
                        j = j + 1;
                    }
                    proof {
                        assert(forall|k: int| 0 <= k < i ==> pre[k] == s[k]);
                    }
                    if fresh {
                        n = n + 1;
                    }
                } else {
                    proof {
                        assert(forall|k: int| 0 <= k < i ==> pre[k] == s[k]);
                    }
                }
            } else {
                proof {
                    assert(forall|k: int| 0 <= k < i ==> pre[k] == s[k]);
                }
            }
            i = i + 1;
        }
        proof {
            assert(s.subrange(0, s.len() as int) =~= s);
        }
        if present {
            Some((n % 8) as u8)
        } else {
            None
        }
    }
}

/// The length in bytes of the UTF-8 encoding of `s`.
pub open spec fn utf8_len(s: Seq<char>) -> nat
    decreases s.len(),
{
    if s.len() == 0 {
        0
    } else {
        utf8_len(s.drop_last()) + {
            let u = s.last() as u32;
            if u < 0x80 {
                1nat
            } else if u < 0x800 {
                2nat
            } else if u < 0x10000 {
                3nat
            } else {
                4nat
            }
        }
    }
}

/// The UTF-8 byte length of a string.
pub fn byte_len(s: &String) -> (r: u128)
    ensures
        r == utf8_len(s@),
{
    let cs = crate::text::chars_of(s.as_str());
    let mut n: u128 = 0;
    let mut i: usize = 0;
    while i < cs.len()
        invariant
            cs@ == s@,
            i <= cs@.len(),
            n == utf8_len(cs@.subrange(0, i as int)),
            n <= 4 * i,
        decreases cs.len() - i,
    {
        proof {
            assert(cs@.subrange(0, (i + 1) as int).drop_last() =~= cs@.subrange(0, i as int));
            assert(cs@.subrange(0, (i + 1) as int).last() == cs@[i as int]);
        }
        let u = cs[i] as u32;
        let w: u128 = if u < 0x80 {
            1
        } else if u < 0x800 {
            2
        } else if u < 0x10000 {
            3
        } else {
            4
        };
        n = n + w;
        i = i + 1;
    }
    assert(cs@.subrange(0, cs@.len() as int) =~= cs@);
    n
}

} // verus!
