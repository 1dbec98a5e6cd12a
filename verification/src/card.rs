//! The card geometries: a row laid out as two lines (the `double` mode) or
//! four (the `card` mode), each line exactly as many terminal cells wide as
//! the pane.
//!
//! A line is a run of cells, each a character and the style it is painted
//! in. Styles are semantic (which ink, whether the row's fade applies, which
//! background); the shell turns them into colours, since the fade is a
//! blend of two colours.
use crate::render::{
    opt_view, spec_think_frame, think_frame, ContentView, Provenance, Row, RowContent, RowStatus,
    RowView, TermStatus,
};
use crate::text::{
    chars_eq, chars_of, is_control, printable_chars, push_decimal, spec_decimal, spec_is_control,
    spec_printable,
};
use vstd::prelude::*;

verus! {

/// How many terminal cells a character takes: none for control and
/// combining characters, two for East Asian wide characters and emoji, one
/// for everything else.
pub open spec fn spec_char_cells(c: char) -> nat {
    let u = c as u32;
    if spec_is_control(c) || (0x300 <= u && u <= 0x36F) || (0x200B <= u && u <= 0x200F) {
        0
    } else if (0x1100 <= u && u <= 0x115F) || (0x2E80 <= u && u <= 0x303E) || (0x3041 <= u && u
        <= 0x33FF) || (0x3400 <= u && u <= 0x4DBF) || (0x4E00 <= u && u <= 0x9FFF) || (0xA000 <= u
        && u <= 0xA4CF) || (0xAC00 <= u && u <= 0xD7A3) || (0xF900 <= u && u <= 0xFAFF) || (0xFE30
        <= u && u <= 0xFE4F) || (0xFF00 <= u && u <= 0xFF60) || (0xFFE0 <= u && u <= 0xFFE6) || (
    0x1F300 <= u && u <= 0x1F64F) || (0x1F900 <= u && u <= 0x1F9FF) || (0x20000 <= u && u
        <= 0x3FFFD) {
        2
    } else {
        1
    }
}

/// The cells a character takes.
pub fn char_cells(c: char) -> (r: usize)
    ensures
        r == spec_char_cells(c),
{
    let u = c as u32;
    if is_control(c) || (0x300 <= u && u <= 0x36F) || (0x200B <= u && u <= 0x200F) {
        0
    } else if (0x1100 <= u && u <= 0x115F) || (0x2E80 <= u && u <= 0x303E) || (0x3041 <= u && u
        <= 0x33FF) || (0x3400 <= u && u <= 0x4DBF) || (0x4E00 <= u && u <= 0x9FFF) || (0xA000 <= u
        && u <= 0xA4CF) || (0xAC00 <= u && u <= 0xD7A3) || (0xF900 <= u && u <= 0xFAFF) || (0xFE30
        <= u && u <= 0xFE4F) || (0xFF00 <= u && u <= 0xFF60) || (0xFFE0 <= u && u <= 0xFFE6) || (
    0x1F300 <= u && u <= 0x1F64F) || (0x1F900 <= u && u <= 0x1F9FF) || (0x20000 <= u && u
        <= 0x3FFFD) {
        2
    } else {
        1
    }
}

/// The cells a text takes on screen.
pub open spec fn spec_cells(s: Seq<char>) -> nat
    decreases s.len(),
{
    if s.len() == 0 {
        0
    } else {
        spec_cells(s.drop_last()) + spec_char_cells(s.last())
    }
}

/// Cells add up over concatenation.
pub proof fn lemma_cells_concat(a: Seq<char>, b: Seq<char>)
    ensures
        spec_cells(a + b) == spec_cells(a) + spec_cells(b),
    decreases b.len(),
{
    if b.len() == 0 {
        assert(a + b =~= a);
    } else {
        assert((a + b).drop_last() =~= a + b.drop_last());
        lemma_cells_concat(a, b.drop_last());
    }
}

/// `n` spaces.
pub open spec fn spaces(n: nat) -> Seq<char> {
    Seq::new(n, |i: int| ' ')
}

/// `n` spaces take `n` cells.
pub proof fn lemma_cells_spaces(n: nat)
    ensures
        spec_cells(spaces(n)) == n,
    decreases n,
{
    if n > 0 {
        assert(spaces(n).drop_last() =~= spaces((n - 1) as nat));
        lemma_cells_spaces((n - 1) as nat);
    }
}

/// One character takes its own cells.
pub proof fn lemma_cells_one(c: char)
    ensures
        spec_cells(seq![c]) == spec_char_cells(c),
{
    assert(seq![c].drop_last() =~= Seq::<char>::empty());
    assert(spec_cells(Seq::<char>::empty()) == 0);
    assert(seq![c].last() == c);
}

/// The longest leading run of a text that fits in `n` cells: a wide
/// character that would straddle the edge is left out whole.
pub open spec fn spec_cell_prefix(s: Seq<char>, n: nat) -> Seq<char>
    decreases s.len(),
{
    if s.len() == 0 || spec_char_cells(s[0]) > n {
        Seq::empty()
    } else {
        seq![s[0]] + spec_cell_prefix(s.drop_first(), (n - spec_char_cells(s[0])) as nat)
    }
}

/// The leading run fits, and is a leading run of the text.
pub proof fn lemma_cell_prefix(s: Seq<char>, n: nat)
    ensures
        spec_cells(spec_cell_prefix(s, n)) <= n,
        spec_cell_prefix(s, n).len() <= s.len(),
        spec_cell_prefix(s, n) == s.take(spec_cell_prefix(s, n).len() as int),
    decreases s.len(),
{
    if !(s.len() == 0 || spec_char_cells(s[0]) > n) {
        let t = s.drop_first();
        let m = (n - spec_char_cells(s[0])) as nat;
        lemma_cell_prefix(t, m);
        lemma_cells_concat(seq![s[0]], spec_cell_prefix(t, m));
        lemma_cells_one(s[0]);
        let p = spec_cell_prefix(s, n);
        assert(p =~= s.take(p.len() as int));
    } else {
        assert(Seq::<char>::empty() =~= s.take(0));
    }
}

/// The horizontal ellipsis a truncated cell ends in.
pub const ELLIPSIS: char = '\u{2026}';

/// A fixed-width cell: the printable text padded with spaces to `w` cells
/// when it fits, else cut to `w - 1` cells and closed with an ellipsis
/// (padded back when a wide character was dropped at the cut).
pub open spec fn spec_pad(s: Seq<char>, w: nat) -> Seq<char> {
    if w == 0 {
        Seq::empty()
    } else {
        let p = spec_printable(s);
        if spec_cells(p) <= w {
            p + spaces((w - spec_cells(p)) as nat)
        } else {
            let cut = spec_cell_prefix(p, (w - 1) as nat);
            cut.push(ELLIPSIS) + spaces((w - 1 - spec_cells(cut)) as nat)
        }
    }
}

/// A fixed-width cell, right-aligned: padded on the left when it fits,
/// cut as `spec_pad` cuts when it does not.
pub open spec fn spec_rpad(s: Seq<char>, w: nat) -> Seq<char> {
    let p = spec_printable(s);
    if spec_cells(p) >= w {
        spec_pad(p, w)
    } else {
        spaces((w - spec_cells(p)) as nat) + p
    }
}

/// A padded cell is exactly its width.
pub proof fn lemma_pad_cells(s: Seq<char>, w: nat)
    ensures
        spec_cells(spec_pad(s, w)) == w,
{
    if w > 0 {
        let p = spec_printable(s);
        if spec_cells(p) <= w {
            lemma_cells_concat(p, spaces((w - spec_cells(p)) as nat));
            lemma_cells_spaces((w - spec_cells(p)) as nat);
        } else {
            let cut = spec_cell_prefix(p, (w - 1) as nat);
            lemma_cell_prefix(p, (w - 1) as nat);
            assert(cut.push(ELLIPSIS) =~= cut + seq![ELLIPSIS]);
            lemma_cells_concat(cut, seq![ELLIPSIS]);
            lemma_cells_one(ELLIPSIS);
            lemma_cells_concat(cut.push(ELLIPSIS), spaces((w - 1 - spec_cells(cut)) as nat));
            lemma_cells_spaces((w - 1 - spec_cells(cut)) as nat);
        }
    }
}

/// A right-aligned cell is exactly its width.
pub proof fn lemma_rpad_cells(s: Seq<char>, w: nat)
    ensures
        spec_cells(spec_rpad(s, w)) == w,
{
    let p = spec_printable(s);
    if spec_cells(p) >= w {
        lemma_pad_cells(p, w);
    } else {
        lemma_cells_concat(spaces((w - spec_cells(p)) as nat), p);
        lemma_cells_spaces((w - spec_cells(p)) as nat);
    }
}

/// The cells of a text, or `cap + 1` once it is known to exceed `cap`.
fn cells_capped(s: &Vec<char>, cap: usize) -> (r: usize)
    requires
        cap < usize::MAX,
    ensures
        r == if spec_cells(s@) <= cap {
            spec_cells(s@)
        } else {
            (cap + 1) as nat
        },
{
    let mut acc: usize = 0;
    let mut i: usize = 0;
    while i < s.len()
        invariant
            i <= s.len(),
            cap < usize::MAX,
            acc == spec_cells(s@.take(i as int)),
            acc <= cap,
        decreases s.len() - i,
    {
        let w = char_cells(s[i]);
        proof {
            assert(s@.take(i + 1).drop_last() =~= s@.take(i as int));
        }
        if w > cap - acc {
            proof {
                lemma_cells_concat(s@.take(i + 1), s@.skip(i + 1));
                assert(s@.take(i + 1) + s@.skip(i + 1) =~= s@);
            }
            return cap + 1;
        }
        acc = acc + w;
        i = i + 1;
    }
    proof {
        assert(s@.take(i as int) =~= s@);
    }
    acc
}

/// The cells a text takes on screen.
pub fn display_cells(s: &str) -> (r: usize)
    requires
        s@.len() <= usize::MAX / 2,
    ensures
        r == spec_cells(s@),
{
    let cs = chars_of(s);
    let mut acc: usize = 0;
    let mut i: usize = 0;
    while i < cs.len()
        invariant
            i <= cs.len(),
            cs@ == s@,
            cs@.len() <= usize::MAX / 2,
            acc == spec_cells(cs@.take(i as int)),
            acc <= 2 * i,
        decreases cs.len() - i,
    {
        proof {
            assert(cs@.take(i + 1).drop_last() =~= cs@.take(i as int));
        }
        acc = acc + char_cells(cs[i]);
        i = i + 1;
    }
    proof {
        assert(cs@.take(i as int) =~= cs@);
    }
    acc
}

/// The leading run of a text that fits in `n` cells.
fn cell_prefix(s: &Vec<char>, n: usize) -> (r: Vec<char>)
    ensures
        r@ == spec_cell_prefix(s@, n as nat),
{
    let mut out: Vec<char> = Vec::new();
    let mut i: usize = 0;
    let mut room: usize = n;
    proof {
        assert(s@.skip(0) =~= s@);
        assert(Seq::<char>::empty() + spec_cell_prefix(s@, n as nat) =~= spec_cell_prefix(
            s@,
            n as nat,
        ));
    }
    while i < s.len() && char_cells(s[i]) <= room
        invariant
            i <= s.len(),
            spec_cell_prefix(s@, n as nat) == out@ + spec_cell_prefix(
                s@.skip(i as int),
                room as nat,
            ),
        decreases s.len() - i,
    {
        let c = s[i];
        let w = char_cells(c);
        proof {
            let t = s@.skip(i as int);
            assert(t[0] == c);
            assert(t.drop_first() =~= s@.skip(i + 1));
            assert(out@.push(c) + spec_cell_prefix(s@.skip(i + 1), (room - w) as nat) =~= out@ + (
            seq![c] + spec_cell_prefix(s@.skip(i + 1), (room - w) as nat)));
        }
        out.push(c);
        room = room - w;
        i = i + 1;
    }
    proof {
        let t = s@.skip(i as int);
        if i < s.len() {
            assert(t[0] == s@[i as int]);
        }
        assert(out@ + Seq::<char>::empty() =~= out@);
    }
    out
}

/// `n` spaces.
fn push_spaces(out: &mut Vec<char>, n: usize)
    ensures
        final(out)@ == old(out)@ + spaces(n as nat),
{
    let ghost start = out@;
    let mut k: usize = 0;
    while k < n
        invariant
            k <= n,
            out@ == start + spaces(k as nat),
        decreases n - k,
    {
        out.push(' ');
        proof {
            assert(start + spaces((k + 1) as nat) =~= (start + spaces(k as nat)).push(' '));
        }
        k = k + 1;
    }
}

/// The characters of `b` after those of `a`.
fn append_chars(a: &mut Vec<char>, b: &Vec<char>)
    ensures
        final(a)@ == old(a)@ + b@,
{
    let ghost start = a@;
    let mut i: usize = 0;
    while i < b.len()
        invariant
            i <= b.len(),
            a@ == start + b@.take(i as int),
        decreases b.len() - i,
    {
        a.push(b[i]);
        proof {
            assert(start + b@.take(i + 1) =~= (start + b@.take(i as int)).push(b@[i as int]));
        }
        i = i + 1;
    }
    proof {
        assert(b@.take(b@.len() as int) =~= b@);
    }
}

/// A fixed-width cell of `w` cells: truncate with an ellipsis when long,
/// pad with spaces when short. Control characters become spaces first.
pub fn pad(s: &Vec<char>, w: usize) -> (r: Vec<char>)
    requires
        w < usize::MAX,
    ensures
        r@ == spec_pad(s@, w as nat),
        spec_cells(r@) == w,
{
    proof {
        lemma_pad_cells(s@, w as nat);
    }
    if w == 0 {
        return Vec::new();
    }
    let p = printable_chars(s);
    let cells = cells_capped(&p, w);
    if cells <= w {
        let mut out = p;
        push_spaces(&mut out, w - cells);
        out
    } else {
        let mut out = cell_prefix(&p, w - 1);
        let cut = cells_capped(&out, w - 1);
        proof {
            lemma_cell_prefix(p@, (w - 1) as nat);
        }
        out.push(ELLIPSIS);
        push_spaces(&mut out, w - 1 - cut);
        out
    }
}

/// A fixed-width cell of `w` cells, right-aligned.
pub fn rpad(s: &Vec<char>, w: usize) -> (r: Vec<char>)
    requires
        w < usize::MAX,
    ensures
        r@ == spec_rpad(s@, w as nat),
        spec_cells(r@) == w,
{
    proof {
        lemma_rpad_cells(s@, w as nat);
    }
    let p = printable_chars(s);
    let cells = cells_capped(&p, w);
    if cells >= w {
        pad(&p, w)
    } else {
        let mut out: Vec<char> = Vec::new();
        push_spaces(&mut out, w - cells);
        append_chars(&mut out, &p);
        proof {
            assert(Seq::<char>::empty() + spaces((w - cells) as nat) =~= spaces(
                (w - cells) as nat,
            ));
        }
        out
    }
}

// ── what a card shows ───────────────────────────────────────────────────────

/// The status spinner's resting glyph, the card's rule and brackets, the
/// pill's caps, the shadow under a card, and the row-kind marks.
pub const RULE: char = '\u{2502}';
pub const CARD_TOP: char = '\u{256d}';
pub const CARD_BOT: char = '\u{2570}';
pub const LCAP: char = '\u{e0b6}';
pub const RCAP: char = '\u{e0b4}';
pub const SHADOW: char = '\u{2500}';
pub const CONSOLE: char = '\u{f018d}';
pub const SUBS_MARK: char = '\u{f171a}';
pub const WORKTREE_MARK: char = '\u{f1bb}';
pub const BRANCH_MARK: char = '\u{f062c}';
pub const OPENAI_GLYPH: char = '\u{ec81}';

/// The last index of the token ramp: eleven bands, 0 through 10.
pub const BATTERY_TOP: u8 = 10;

/// The fixed budgets, in cells.
pub const CHIP_W: usize = 7;
pub const REPO_W: usize = 9;
pub const MODEL_W: usize = 6;
pub const EFFORT_W: usize = 2;
pub const BRANCH_MIN: usize = 9;
pub const PR_W: usize = 5;
pub const TOKEN_W: usize = 4;
pub const ELAPSED_W: usize = 3;
pub const CHROME: usize = 5;
pub const TOKEN_GAP: usize = 2;
pub const TURN_W: usize = 3;
pub const META_TAIL_W: usize = 12;

/// The two-line card's floor and its expanded threshold.
pub const DOUBLE_COLLAPSED_COLS: usize = 38;
pub const DOUBLE_EXPANDED_COLS: usize = 48;

/// The four-line card's floor and its expanded threshold.
pub const CARD_COLLAPSED_COLS: usize = 16;
pub const CARD_EXPANDED_COLS: usize = 48;

/// A provider the bar carries a brand mark for.
#[derive(Debug, Clone, Copy, PartialEq, Eq, Structural)]
pub enum Brand {
    OpenAi,
}

/// Which ink a cell is painted in; the shell maps each to a colour.
#[derive(Debug, Clone, Copy, PartialEq, Eq, Structural)]
pub enum Ink {
    /// An agent row's status colour.
    AgentStatus(RowStatus),
    /// A terminal row's status colour.
    TermStatus(TermStatus),
    /// The two-line card's bracket, one of two neutrals by zebra parity.
    Bracket(bool),
    /// A palette hue by index; `None` is the palette's absent-hue grey.
    Hue(Option<u8>),
    /// The text on a pill, and the TERM pill's own colour.
    ChipText,
    /// The theme's default foreground.
    Default,
    /// Secondary metadata.
    Meta,
    /// The PR number.
    Pr,
    /// A provider's brand colour.
    Brand(Brand),
    /// The token ramp's band.
    Battery(u8),
    /// The worktree provenance mark.
    Worktree,
    /// The branch provenance mark.
    Branch,
    /// The subagent mark.
    Subs,
    /// What a blocked row asks for.
    NeedsYou,
    /// The turn clock.
    Turn,
    /// The shadow rule under a card.
    Shadow,
}

/// What is painted behind a cell.
#[derive(Debug, Clone, Copy, PartialEq, Eq, Structural)]
pub enum Bg {
    /// Nothing: the terminal's own background shows through.
    Glass,
    /// The selection bar.
    Bar,
    /// A title pill in a palette hue, which the row's fade applies to.
    Pill(Option<u8>),
    /// The TERM pill, in the chip-text colour.
    TermPill,
}

/// How one cell is painted. `faded` says whether the row's fade applies to
/// the ink.
#[derive(Debug, Clone, Copy, PartialEq, Eq, Structural)]
pub struct Style {
    pub ink: Ink,
    pub faded: bool,
    pub bg: Bg,
}

/// How far a row's inks recede towards the background.
#[derive(Debug, Clone, Copy, PartialEq, Eq, Structural)]
pub enum Fade {
    /// Full strength.
    Full,
    /// Receded, beside a selected row.
    Recede,
    /// The dormant fade.
    Dormant,
}

/// One terminal cell's character and paint.
pub type Cell = (char, Style);

/// A card's lines and how far its inks recede.
pub struct Card {
    pub lines: Vec<Vec<Cell>>,
    pub fade: Fade,
}

/// The pill on line 1.
pub enum ChipCell {
    /// No pill: the session was never renamed.
    Absent,
    /// A title pill in a palette hue.
    Title(Vec<char>, Option<u8>),
    /// A terminal row's pill, bearing the tab's name.
    Term(Vec<char>),
}

/// The pill as plain values.
pub ghost enum ChipView {
    Absent,
    Title(Seq<char>, Option<u8>),
    Term(Seq<char>),
}

/// Line 1's token cell.
pub enum TokenCell {
    /// A count, and the ink of its band.
    Count(Vec<char>, Ink),
    /// A terminal row's `TERM`.
    Term,
    /// No reading yet.
    Blank,
}

/// The token cell as plain values.
pub ghost enum TokenView {
    Count(Seq<char>, Ink),
    Term,
    Blank,
}

/// A row's cells, resolved from either content variant.
pub struct CardCells {
    pub mark: char,
    pub mark_ink: Ink,
    pub chip: ChipCell,
    pub summary: Vec<char>,
    pub tokens: TokenCell,
    pub prov: Option<char>,
    pub repo: Vec<char>,
    pub repo_ink: Ink,
    pub branch: Vec<char>,
    pub pr: Option<u32>,
    pub provider: Option<(char, Ink)>,
    pub model: Vec<char>,
    pub effort: Vec<char>,
    pub elapsed: Vec<char>,
    pub thinking: bool,
    pub subs: bool,
    pub turn: Vec<char>,
    pub wants: Vec<char>,
}

/// A row's cells as plain values.
pub ghost struct CardCellsView {
    pub mark: char,
    pub mark_ink: Ink,
    pub chip: ChipView,
    pub summary: Seq<char>,
    pub tokens: TokenView,
    pub prov: Option<char>,
    pub repo: Seq<char>,
    pub repo_ink: Ink,
    pub branch: Seq<char>,
    pub pr: Option<u32>,
    pub provider: Option<(char, Ink)>,
    pub model: Seq<char>,
    pub effort: Seq<char>,
    pub elapsed: Seq<char>,
    pub thinking: bool,
    pub subs: bool,
    pub turn: Seq<char>,
    pub wants: Seq<char>,
}

impl View for CardCells {
    type V = CardCellsView;

    open spec fn view(&self) -> CardCellsView {
        CardCellsView {
            mark: self.mark,
            mark_ink: self.mark_ink,
            chip: match &self.chip {
                ChipCell::Absent => ChipView::Absent,
                ChipCell::Title(l, h) => ChipView::Title(l@, *h),
                ChipCell::Term(l) => ChipView::Term(l@),
            },
            summary: self.summary@,
            tokens: match &self.tokens {
                TokenCell::Count(t, i) => TokenView::Count(t@, *i),
                TokenCell::Term => TokenView::Term,
                TokenCell::Blank => TokenView::Blank,
            },
            prov: self.prov,
            repo: self.repo@,
            repo_ink: self.repo_ink,
            branch: self.branch@,
            pr: self.pr,
            provider: self.provider,
            model: self.model@,
            effort: self.effort@,
            elapsed: self.elapsed@,
            thinking: self.thinking,
            subs: self.subs,
            turn: self.turn@,
            wants: self.wants@,
        }
    }
}

/// An agent status's mark.
pub open spec fn spec_status_glyph(s: RowStatus) -> char {
    match s {
        RowStatus::Failed => '\u{2716}',
        RowStatus::Opening => '\u{21bb}',
        RowStatus::Dormant => '\u{25cb}',
        RowStatus::DormantSelected => '\u{25c9}',
        RowStatus::Stale => '\u{25cc}',
        _ => '\u{25cf}',
    }
}

/// An agent status's mark.
pub fn status_glyph(s: RowStatus) -> (r: char)
    ensures
        r == spec_status_glyph(s),
{
    match s {
        RowStatus::Failed => '\u{2716}',
        RowStatus::Opening => '\u{21bb}',
        RowStatus::Dormant => '\u{25cb}',
        RowStatus::DormantSelected => '\u{25c9}',
        RowStatus::Stale => '\u{25cc}',
        _ => '\u{25cf}',
    }
}

/// The provenance column's mark: nothing for the ordinary checkout.
pub open spec fn spec_provenance_mark(p: Provenance) -> Option<char> {
    match p {
        Provenance::Main => None,
        Provenance::Branch => Some(BRANCH_MARK),
        Provenance::Worktree => Some(WORKTREE_MARK),
    }
}

/// The provenance column's mark.
pub fn provenance_mark(p: Provenance) -> (r: Option<char>)
    ensures
        r == spec_provenance_mark(p),
{
    match p {
        Provenance::Main => None,
        Provenance::Branch => Some(BRANCH_MARK),
        Provenance::Worktree => Some(WORKTREE_MARK),
    }
}

/// A provider's brand cell: a mark for the runtimes the bar knows, and
/// nothing for one it does not.
pub open spec fn spec_provider_mark(p: Option<Seq<char>>) -> Option<(char, Ink)> {
    match p {
        Some(name) => if name == "openai"@ {
            Some((OPENAI_GLYPH, Ink::Brand(Brand::OpenAi)))
        } else {
            None
        },
        None => None,
    }
}

/// A provider's brand cell.
pub fn provider_mark(p: &Option<String>) -> (r: Option<(char, Ink)>)
    ensures
        r == spec_provider_mark(opt_view(*p)),
{
    match p {
        Some(name) => {
            let cs = chars_of(name.as_str());
            let openai = chars_of("openai");
            if chars_eq(&cs, &openai) {
                Some((OPENAI_GLYPH, Ink::Brand(Brand::OpenAi)))
            } else {
                None
            }
        },
        None => None,
    }
}

/// A token count as the card prints it: thousands, then `k`.
pub open spec fn spec_token_text(t: u64) -> Seq<char> {
    spec_decimal((t / 1000) as nat).push('k')
}

/// A token count as the card prints it.
pub fn token_text(t: u64) -> (r: Vec<char>)
    ensures
        r@ == spec_token_text(t),
{
    let mut out: Vec<char> = Vec::new();
    push_decimal(&mut out, t / 1000);
    out.push('k');
    proof {
        assert(Seq::<char>::empty() + spec_decimal((t / 1000) as nat) =~= spec_decimal(
            (t / 1000) as nat,
        ));
    }
    out
}

/// An optional text, or the empty one.
pub open spec fn or_empty(o: Option<Seq<char>>) -> Seq<char> {
    match o {
        Some(s) => s,
        None => Seq::empty(),
    }
}

/// An optional string's characters, or none.
fn opt_chars(o: &Option<String>) -> (r: Vec<char>)
    ensures
        r@ == or_empty(opt_view(*o)),
{
    match o {
        Some(s) => chars_of(s.as_str()),
        None => Vec::new(),
    }
}

/// A row's cells, from either content variant: where each comes from
/// differs, what the card draws does not.
pub open spec fn spec_card_cells(c: ContentView) -> CardCellsView {
    match c {
        ContentView::Agent {
            status,
            battery,
            tokens,
            provenance,
            title,
            title_ink,
            repo,
            repo_ink,
            summary,
            model,
            provider,
            pr,
            branch,
            elapsed,
            effort,
            wants,
            subagents,
        } => CardCellsView {
            mark: spec_status_glyph(status),
            mark_ink: Ink::AgentStatus(status),
            chip: match title {
                Some(t) => ChipView::Title(t, title_ink),
                None => ChipView::Absent,
            },
            summary,
            tokens: match tokens {
                Some(t) => TokenView::Count(
                    spec_token_text(t),
                    match battery {
                        Some(i) => Ink::Battery(if i > BATTERY_TOP { BATTERY_TOP } else { i }),
                        None => Ink::Default,
                    },
                ),
                None => TokenView::Blank,
            },
            prov: spec_provenance_mark(provenance),
            repo,
            repo_ink: Ink::Hue(repo_ink),
            branch,
            pr,
            provider: spec_provider_mark(provider),
            model: or_empty(model),
            effort: or_empty(effort),
            elapsed: or_empty(elapsed),
            thinking: status == RowStatus::Working,
            subs: subagents,
            turn: Seq::empty(),
            wants: or_empty(wants),
        },
        ContentView::Terminal {
            name,
            status,
            provenance,
            repo,
            repo_ink,
            command,
            pr,
            branch,
            elapsed,
        } => CardCellsView {
            mark: CONSOLE,
            mark_ink: Ink::TermStatus(status),
            chip: ChipView::Term(name),
            summary: command,
            tokens: TokenView::Term,
            prov: spec_provenance_mark(provenance),
            repo: or_empty(repo),
            repo_ink: match repo_ink {
                Some(i) => Ink::Hue(Some(i)),
                None => Ink::Default,
            },
            branch,
            pr,
            provider: None,
            model: Seq::empty(),
            effort: Seq::empty(),
            elapsed: or_empty(elapsed),
            thinking: false,
            subs: false,
            turn: Seq::empty(),
            wants: Seq::empty(),
        },
    }
}

/// A row's cells.
pub fn card_cells(content: &RowContent) -> (r: CardCells)
    ensures
        r@ == spec_card_cells(content@),
{
    match content {
        RowContent::Agent {
            status,
            battery,
            tokens,
            provenance,
            title,
            title_ink,
            repo,
            repo_ink,
            summary,
            model,
            provider,
            pr,
            branch,
            elapsed,
            effort,
            wants,
            subagents,
        } => CardCells {
            mark: status_glyph(*status),
            mark_ink: Ink::AgentStatus(*status),
            chip: match title {
                Some(t) => ChipCell::Title(chars_of(t.as_str()), *title_ink),
                None => ChipCell::Absent,
            },
            summary: chars_of(summary.as_str()),
            tokens: match tokens {
                Some(t) => TokenCell::Count(
                    token_text(*t),
                    match battery {
                        Some(i) => Ink::Battery(
                            if *i > BATTERY_TOP {
                                BATTERY_TOP
                            } else {
                                *i
                            },
                        ),
                        None => Ink::Default,
                    },
                ),
                None => TokenCell::Blank,
            },
            prov: provenance_mark(*provenance),
            repo: chars_of(repo.as_str()),
            repo_ink: Ink::Hue(*repo_ink),
            branch: chars_of(branch.as_str()),
            pr: *pr,
            provider: provider_mark(provider),
            model: opt_chars(model),
            effort: opt_chars(effort),
            elapsed: opt_chars(elapsed),
            thinking: *status == RowStatus::Working,
            subs: *subagents,
            turn: Vec::new(),
            wants: opt_chars(wants),
        },
        RowContent::Terminal {
            name,
            status,
            provenance,
            repo,
            repo_ink,
            command,
            pr,
            branch,
            elapsed,
        } => CardCells {
            mark: CONSOLE,
            mark_ink: Ink::TermStatus(*status),
            chip: ChipCell::Term(chars_of(name.as_str())),
            summary: chars_of(command.as_str()),
            tokens: TokenCell::Term,
            prov: provenance_mark(*provenance),
            repo: opt_chars(repo),
            repo_ink: match repo_ink {
                Some(i) => Ink::Hue(Some(*i)),
                None => Ink::Default,
            },
            branch: chars_of(branch.as_str()),
            pr: *pr,
            provider: None,
            model: Vec::new(),
            effort: Vec::new(),
            elapsed: opt_chars(elapsed),
            thinking: false,
            subs: false,
            turn: Vec::new(),
            wants: Vec::new(),
        },
    }
}

// ── lines of cells ──────────────────────────────────────────────────────────

/// A text painted in one style.
pub open spec fn piece(s: Seq<char>, st: Style) -> Seq<Cell> {
    s.map_values(|c: char| (c, st))
}

/// The style of a row's ordinary segment: the selection bar behind it when
/// the row is selected, glass otherwise.
pub open spec fn row_style(sel: bool, ink: Ink, faded: bool) -> Style {
    Style { ink, faded, bg: if sel { Bg::Bar } else { Bg::Glass } }
}

/// A row's ordinary segment.
pub open spec fn seg(sel: bool, ink: Ink, faded: bool, s: Seq<char>) -> Seq<Cell> {
    piece(s, row_style(sel, ink, faded))
}

/// What a line says, its paint stripped.
pub open spec fn line_text(l: Seq<Cell>) -> Seq<char> {
    l.map_values(|x: Cell| x.0)
}

/// The paint of the cells a clipped line is padded back with.
pub open spec fn plain() -> Style {
    Style { ink: Ink::Default, faded: false, bg: Bg::Glass }
}

/// A line cut to the `cols` cells that fit, a wide character straddling
/// the edge left out whole, and padded back to exactly `cols` cells.
pub open spec fn spec_clip(l: Seq<Cell>, cols: nat) -> Seq<Cell> {
    let cut = spec_cell_prefix(line_text(l), cols);
    l.take(cut.len() as int) + piece(spaces((cols - spec_cells(cut)) as nat), plain())
}

/// A clipped line is exactly `cols` cells wide.
pub proof fn lemma_clip_cells(l: Seq<Cell>, cols: nat)
    ensures
        spec_cells(line_text(spec_clip(l, cols))) == cols,
{
    let t = line_text(l);
    let cut = spec_cell_prefix(t, cols);
    lemma_cell_prefix(t, cols);
    let k = cut.len() as int;
    let pad = spaces((cols - spec_cells(cut)) as nat);
    assert(line_text(spec_clip(l, cols)) =~= cut + pad);
    lemma_cells_concat(cut, pad);
    lemma_cells_spaces((cols - spec_cells(cut)) as nat);
}

/// `a - b`, or nothing when `b` is larger.
pub open spec fn sat_sub(a: nat, b: nat) -> nat {
    if a >= b {
        (a - b) as nat
    } else {
        0
    }
}

/// `TERM`, the terminal row's token cell.
pub open spec fn term_text() -> Seq<char> {
    seq!['T', 'E', 'R', 'M']
}

/// A text after one space.
pub open spec fn spaced(s: Seq<char>) -> Seq<char> {
    seq![' '] + s
}

/// Paints a text onto the end of a line.
fn push_piece(line: &mut Vec<Cell>, s: &Vec<char>, st: Style)
    ensures
        final(line)@ == old(line)@ + piece(s@, st),
{
    let ghost start = line@;
    let mut i: usize = 0;
    while i < s.len()
        invariant
            i <= s.len(),
            line@ == start + piece(s@.take(i as int), st),
        decreases s.len() - i,
    {
        line.push((s[i], st));
        proof {
            assert(start + piece(s@.take(i + 1), st) =~= (start + piece(s@.take(i as int), st)).push(
                (s@[i as int], st),
            ));
        }
        i = i + 1;
    }
    proof {
        assert(s@.take(s@.len() as int) =~= s@);
    }
}

/// Paints a row's ordinary segment onto the end of a line.
fn push_seg(line: &mut Vec<Cell>, sel: bool, ink: Ink, faded: bool, s: &Vec<char>)
    ensures
        final(line)@ == old(line)@ + seg(sel, ink, faded, s@),
{
    let st = Style { ink, faded, bg: if sel { Bg::Bar } else { Bg::Glass } };
    push_piece(line, s, st);
}

/// One space, then the text.
fn space_then(s: Vec<char>) -> (r: Vec<char>)
    ensures
        r@ == spaced(s@),
{
    let mut out = vec![' '];
    append_chars(&mut out, &s);
    out
}

/// What a line says.
fn text_of(l: &Vec<Cell>) -> (r: Vec<char>)
    ensures
        r@ == line_text(l@),
{
    let mut out: Vec<char> = Vec::new();
    let mut i: usize = 0;
    while i < l.len()
        invariant
            i <= l.len(),
            out@ == line_text(l@.take(i as int)),
        decreases l.len() - i,
    {
        out.push(l[i].0);
        proof {
            assert(line_text(l@.take(i + 1)) =~= line_text(l@.take(i as int)).push(l@[i as int].0));
        }
        i = i + 1;
    }
    proof {
        assert(l@.take(l@.len() as int) =~= l@);
    }
    out
}

/// The cells a line takes, or `cap + 1` once it exceeds `cap`.
fn line_cells_capped(l: &Vec<Cell>, cap: usize) -> (r: usize)
    requires
        cap < usize::MAX,
    ensures
        r == if spec_cells(line_text(l@)) <= cap {
            spec_cells(line_text(l@))
        } else {
            (cap + 1) as nat
        },
{
    let t = text_of(l);
    cells_capped(&t, cap)
}

/// A line cut and padded to exactly `cols` cells.
pub fn clip(l: &Vec<Cell>, cols: usize) -> (r: Vec<Cell>)
    requires
        cols < usize::MAX,
    ensures
        r@ == spec_clip(l@, cols as nat),
        spec_cells(line_text(r@)) == cols,
{
    proof {
        lemma_clip_cells(l@, cols as nat);
        lemma_cell_prefix(line_text(l@), cols as nat);
    }
    let t = text_of(l);
    let cut = cell_prefix(&t, cols);
    let used = cells_capped(&cut, cols);
    let k = cut.len();
    let mut out: Vec<Cell> = Vec::new();
    let mut i: usize = 0;
    while i < k
        invariant
            i <= k,
            k <= l@.len(),
            out@ == l@.take(i as int),
        decreases k - i,
    {
        out.push(l[i]);
        proof {
            assert(l@.take(i + 1) =~= l@.take(i as int).push(l@[i as int]));
        }
        i = i + 1;
    }
    let mut fill: Vec<char> = Vec::new();
    push_spaces(&mut fill, cols - used);
    proof {
        assert(Seq::<char>::empty() + spaces((cols - used) as nat) =~= spaces((cols - used) as nat));
    }
    push_piece(&mut out, &fill, Style { ink: Ink::Default, faded: false, bg: Bg::Glass });
    out
}

/// How far a row recedes: not at all when selected; the dormant fade for a
/// dormant row (unless it is opening, mid-launch); receded beside a
/// selection; full strength when nothing is selected.
pub open spec fn spec_row_fade(row: RowView, any_selected: bool) -> Fade {
    let opening = match row.content {
        ContentView::Agent { status, .. } => status == RowStatus::Opening,
        _ => false,
    };
    if row.selected {
        Fade::Full
    } else if row.dormant && !opening {
        Fade::Dormant
    } else if !any_selected {
        Fade::Full
    } else {
        Fade::Recede
    }
}

/// How far a row recedes.
pub fn row_fade(row: &Row, any_selected: bool) -> (r: Fade)
    ensures
        r == spec_row_fade(row@, any_selected),
{
    let opening = match &row.content {
        RowContent::Agent { status, .. } => *status == RowStatus::Opening,
        _ => false,
    };
    if row.selected {
        Fade::Full
    } else if row.dormant && !opening {
        Fade::Dormant
    } else if !any_selected {
        Fade::Full
    } else {
        Fade::Recede
    }
}

/// The pill: caps in the pill's colour around the padded label.
pub open spec fn spec_chip(sel: bool, chip: ChipView) -> Seq<Cell> {
    match chip {
        ChipView::Title(label, hue) => seg(sel, Ink::Hue(hue), true, seq![LCAP]) + piece(
            spec_pad(label, CHIP_W as nat),
            Style { ink: Ink::ChipText, faded: true, bg: Bg::Pill(hue) },
        ) + seg(sel, Ink::Hue(hue), true, seq![RCAP]),
        ChipView::Term(label) => seg(sel, Ink::ChipText, true, seq![LCAP]) + piece(
            spec_pad(label, CHIP_W as nat),
            Style { ink: Ink::Default, faded: true, bg: Bg::TermPill },
        ) + seg(sel, Ink::ChipText, true, seq![RCAP]),
        ChipView::Absent => Seq::empty(),
    }
}

/// Paints the pill.
fn push_chip(line: &mut Vec<Cell>, sel: bool, chip: &ChipCell)
    ensures
        final(line)@ == old(line)@ + spec_chip(sel, chip_view(chip)),
{
    match chip {
        ChipCell::Title(label, hue) => {
            push_seg(line, sel, Ink::Hue(*hue), true, &vec![LCAP]);
            push_piece(
                line,
                &pad(label, CHIP_W),
                Style { ink: Ink::ChipText, faded: true, bg: Bg::Pill(*hue) },
            );
            push_seg(line, sel, Ink::Hue(*hue), true, &vec![RCAP]);
        },
        ChipCell::Term(label) => {
            push_seg(line, sel, Ink::ChipText, true, &vec![LCAP]);
            push_piece(
                line,
                &pad(label, CHIP_W),
                Style { ink: Ink::Default, faded: true, bg: Bg::TermPill },
            );
            push_seg(line, sel, Ink::ChipText, true, &vec![RCAP]);
        },
        ChipCell::Absent => {
            assert(old(line)@ + Seq::<Cell>::empty() =~= old(line)@);
        },
    }
}

/// A pill's plain values.
pub open spec fn chip_view(c: &ChipCell) -> ChipView {
    match c {
        ChipCell::Absent => ChipView::Absent,
        ChipCell::Title(l, h) => ChipView::Title(l@, *h),
        ChipCell::Term(l) => ChipView::Term(l@),
    }
}

/// The smaller of a text's cells and the repo budget.
pub open spec fn repo_cells(repo: Seq<char>) -> nat {
    if spec_cells(repo) <= REPO_W {
        spec_cells(repo)
    } else {
        REPO_W as nat
    }
}

/// The smaller of a text's cells and the repo budget.
fn repo_cells_of(repo: &Vec<char>) -> (r: usize)
    ensures
        r == repo_cells(repo@),
        r <= REPO_W,
{
    let c = cells_capped(repo, REPO_W);
    if c <= REPO_W {
        c
    } else {
        REPO_W
    }
}

/// `#` and the PR number.
pub open spec fn pr_text(n: u32) -> Seq<char> {
    seq!['#'] + spec_decimal(n as nat)
}

/// `#` and the PR number.
fn pr_chars(n: u32) -> (r: Vec<char>)
    ensures
        r@ == pr_text(n),
{
    let mut out = vec!['#'];
    push_decimal(&mut out, n as u64);
    out
}

/// The provider cell: its mark in its brand colour, or two blank cells.
pub open spec fn spec_provider_cell(sel: bool, p: Option<(char, Ink)>) -> Seq<Cell> {
    match p {
        Some((g, ink)) => seg(sel, ink, true, seq![' ', g]),
        None => seg(sel, Ink::Default, false, seq![' ', ' ']),
    }
}

/// Paints the provider cell.
fn push_provider(line: &mut Vec<Cell>, sel: bool, p: Option<(char, Ink)>)
    ensures
        final(line)@ == old(line)@ + spec_provider_cell(sel, p),
{
    match p {
        Some((g, ink)) => push_seg(line, sel, ink, true, &vec![' ', g]),
        None => push_seg(line, sel, Ink::Default, false, &vec![' ', ' ']),
    }
}

// ── the two-line card ───────────────────────────────────────────────────────

/// The two-line card's build width: the pane, or the floor when the pane
/// is narrower (the card is then clipped, never reflowed).
pub open spec fn double_build(cols: nat) -> nat {
    if cols >= DOUBLE_COLLAPSED_COLS {
        cols
    } else {
        DOUBLE_COLLAPSED_COLS as nat
    }
}

/// Line 1's token cell on the two-line card, right-aligned.
pub open spec fn spec_double_tokens(sel: bool, t: TokenView) -> Seq<Cell> {
    match t {
        TokenView::Count(x, band) => seg(sel, band, true, spaced(spec_rpad(x, TOKEN_W as nat))),
        TokenView::Term => seg(sel, Ink::Meta, true, spaced(spec_rpad(term_text(), TOKEN_W as nat))),
        TokenView::Blank => seg(
            sel,
            Ink::Default,
            true,
            spaced(spec_rpad(Seq::empty(), TOKEN_W as nat)),
        ),
    }
}

/// Line 1 of the two-line card, before the clip: status, bracket, pill,
/// the summary flexing to fill, the token cell and a margin.
pub open spec fn spec_double_line1(sel: bool, zebra: bool, c: CardCellsView, build: nat) -> Seq<
    Cell,
> {
    let flex = if c.chip is Absent {
        sat_sub(build, 12)
    } else {
        sat_sub(build, 21)
    };
    seg(sel, c.mark_ink, true, seq![' ', c.mark, ' ']) + seg(
        sel,
        Ink::Bracket(zebra),
        true,
        seq![CARD_TOP, ' '],
    ) + spec_chip(sel, c.chip) + seg(sel, Ink::Default, true, spaced(spec_pad(c.summary, flex)))
        + spec_double_tokens(sel, c.tokens) + seg(sel, Ink::Default, false, seq![' '])
}

/// The repo-and-branch budget of the two-line card's line 2.
pub open spec fn double_total(c: CardCellsView, build: nat) -> nat {
    let pr_extra: nat = if c.pr is None {
        (PR_W + 1) as nat
    } else {
        0
    };
    (REPO_W + pr_extra + if build >= DOUBLE_EXPANDED_COLS {
        (1 + BRANCH_MIN) as nat
    } else {
        0
    }) as nat
}

/// The repo cell, and the branch after the repo's name when there is room
/// for one.
pub open spec fn spec_double_repo(sel: bool, c: CardCellsView, total: nat) -> Seq<Cell> {
    if c.branch.len() == 0 || total == REPO_W {
        seg(sel, c.repo_ink, true, spaced(spec_pad(c.repo, total)))
    } else {
        let rw = repo_cells(c.repo);
        seg(sel, c.repo_ink, true, spaced(spec_pad(c.repo, rw))) + seg(
            sel,
            Ink::Meta,
            true,
            spaced(spec_pad(c.branch, sat_sub(total, rw + 1))),
        )
    }
}

/// The PR cell, where there is a PR.
pub open spec fn spec_pr_cell(sel: bool, pr: Option<u32>) -> Seq<Cell> {
    match pr {
        Some(n) => seg(sel, Ink::Pr, true, spaced(spec_pad(pr_text(n), PR_W as nat))),
        None => Seq::empty(),
    }
}

/// Line 2 of the two-line card up to its fill: provenance, bracket,
/// repo and branch, PR, provider, model and effort.
pub open spec fn spec_double_head2(sel: bool, zebra: bool, c: CardCellsView, build: nat) -> Seq<
    Cell,
> {
    let prov = match c.prov {
        Some(g) => g,
        None => ' ',
    };
    seg(sel, c.repo_ink, true, seq![' ', prov, ' ']) + seg(
        sel,
        Ink::Bracket(zebra),
        true,
        seq![CARD_BOT, ' '],
    ) + spec_double_repo(sel, c, double_total(c, build)) + spec_pr_cell(sel, c.pr)
        + spec_provider_cell(sel, c.provider) + seg(
        sel,
        Ink::Meta,
        true,
        spaced(spec_pad(c.model, MODEL_W as nat)),
    ) + seg(sel, Ink::Meta, true, spaced(spec_pad(c.effort, EFFORT_W as nat)))
}

/// Line 2 of the two-line card, before the clip: the head, a fill, and the
/// elapsed clock right-aligned one margin in.
pub open spec fn spec_double_line2(sel: bool, zebra: bool, c: CardCellsView, build: nat) -> Seq<
    Cell,
> {
    let head = spec_double_head2(sel, zebra, c, build);
    let fill = sat_sub(build, (spec_cells(line_text(head)) + ELAPSED_W + 1) as nat);
    head + seg(sel, Ink::Default, false, spaces(fill)) + seg(
        sel,
        Ink::Meta,
        true,
        spec_rpad(c.elapsed, ELAPSED_W as nat),
    ) + seg(sel, Ink::Default, false, seq![' '])
}

/// The two-line card: both lines built at the build width and clipped to
/// the pane.
pub open spec fn spec_double_card(row: RowView, cols: nat, zebra: bool) -> Seq<Seq<Cell>> {
    let c = spec_card_cells(row.content);
    let build = double_build(cols);
    seq![
        spec_clip(spec_double_line1(row.selected, zebra, c, build), cols),
        spec_clip(spec_double_line2(row.selected, zebra, c, build), cols),
    ]
}

/// Paints line 1's token cell on the two-line card.
fn push_double_tokens(line: &mut Vec<Cell>, sel: bool, t: &TokenCell)
    ensures
        final(line)@ == old(line)@ + spec_double_tokens(sel, token_view(t)),
{
    match t {
        TokenCell::Count(x, band) => push_seg(line, sel, *band, true, &space_then(rpad(x, TOKEN_W))),
        TokenCell::Term => push_seg(
            line,
            sel,
            Ink::Meta,
            true,
            &space_then(rpad(&vec!['T', 'E', 'R', 'M'], TOKEN_W)),
        ),
        TokenCell::Blank => push_seg(
            line,
            sel,
            Ink::Default,
            true,
            &space_then(rpad(&Vec::new(), TOKEN_W)),
        ),
    }
}

/// A token cell's plain values.
pub open spec fn token_view(t: &TokenCell) -> TokenView {
    match t {
        TokenCell::Count(x, i) => TokenView::Count(x@, *i),
        TokenCell::Term => TokenView::Term,
        TokenCell::Blank => TokenView::Blank,
    }
}

/// Builds line 1 of the two-line card.
fn double_line1(sel: bool, zebra: bool, c: &CardCells, build: usize) -> (r: Vec<Cell>)
    requires
        build >= DOUBLE_COLLAPSED_COLS,
        build < usize::MAX,
    ensures
        r@ == spec_double_line1(sel, zebra, c@, build as nat),
{
    let mut l1: Vec<Cell> = Vec::new();
    push_seg(&mut l1, sel, c.mark_ink, true, &vec![' ', c.mark, ' ']);
    push_seg(&mut l1, sel, Ink::Bracket(zebra), true, &vec![CARD_TOP, ' ']);
    push_chip(&mut l1, sel, &c.chip);
    let flex = match c.chip {
        ChipCell::Absent => build - 12,
        _ => build - 21,
    };
    push_seg(&mut l1, sel, Ink::Default, true, &space_then(pad(&c.summary, flex)));
    push_double_tokens(&mut l1, sel, &c.tokens);
    push_seg(&mut l1, sel, Ink::Default, false, &vec![' ']);
    proof {
        assert(chip_view(&c.chip) == c@.chip);
        assert(token_view(&c.tokens) == c@.tokens);
        assert(l1@ =~= spec_double_line1(sel, zebra, c@, build as nat));
    }
    l1
}

/// Builds line 2 of the two-line card up to its fill.
fn double_head2(sel: bool, zebra: bool, c: &CardCells, build: usize) -> (r: Vec<Cell>)
    requires
        build >= DOUBLE_COLLAPSED_COLS,
        build < usize::MAX,
    ensures
        r@ == spec_double_head2(sel, zebra, c@, build as nat),
{
    let ghost cv = c@;
    let mut l2: Vec<Cell> = Vec::new();
    let prov = match c.prov {
        Some(g) => g,
        None => ' ',
    };
    push_seg(&mut l2, sel, c.repo_ink, true, &vec![' ', prov, ' ']);
    push_seg(&mut l2, sel, Ink::Bracket(zebra), true, &vec![CARD_BOT, ' ']);
    let pr_extra: usize = if c.pr.is_none() {
        PR_W + 1
    } else {
        0
    };
    let total: usize = REPO_W + pr_extra + if build >= DOUBLE_EXPANDED_COLS {
        1 + BRANCH_MIN
    } else {
        0
    };
    let ghost before_repo = l2@;
    if c.branch.len() == 0 || total == REPO_W {
        push_seg(&mut l2, sel, c.repo_ink, true, &space_then(pad(&c.repo, total)));
    } else {
        let rw = repo_cells_of(&c.repo);
        push_seg(&mut l2, sel, c.repo_ink, true, &space_then(pad(&c.repo, rw)));
        push_seg(&mut l2, sel, Ink::Meta, true, &space_then(pad(&c.branch, total - (rw + 1))));
    }
    proof {
        assert(l2@ =~= before_repo + spec_double_repo(sel, cv, double_total(cv, build as nat)));
    }
    let ghost before_pr = l2@;
    match c.pr {
        Some(n) => push_seg(&mut l2, sel, Ink::Pr, true, &space_then(pad(&pr_chars(n), PR_W))),
        None => {},
    }
    proof {
        assert(l2@ =~= before_pr + spec_pr_cell(sel, cv.pr));
    }
    push_provider(&mut l2, sel, c.provider);
    push_seg(&mut l2, sel, Ink::Meta, true, &space_then(pad(&c.model, MODEL_W)));
    push_seg(&mut l2, sel, Ink::Meta, true, &space_then(pad(&c.effort, EFFORT_W)));
    proof {
        assert(l2@ =~= spec_double_head2(sel, zebra, cv, build as nat));
    }
    l2
}

/// Builds line 2 of the two-line card.
fn double_line2(sel: bool, zebra: bool, c: &CardCells, build: usize) -> (r: Vec<Cell>)
    requires
        build >= DOUBLE_COLLAPSED_COLS,
        build < usize::MAX,
    ensures
        r@ == spec_double_line2(sel, zebra, c@, build as nat),
{
    let mut l2 = double_head2(sel, zebra, c, build);
    let used = line_cells_capped(&l2, build);
    let fill = if used <= build && build - used >= ELAPSED_W + 1 {
        build - used - (ELAPSED_W + 1)
    } else {
        0
    };
    let mut gap: Vec<char> = Vec::new();
    push_spaces(&mut gap, fill);
    proof {
        assert(Seq::<char>::empty() + spaces(fill as nat) =~= spaces(fill as nat));
    }
    push_seg(&mut l2, sel, Ink::Default, false, &gap);
    push_seg(&mut l2, sel, Ink::Meta, true, &rpad(&c.elapsed, ELAPSED_W));
    push_seg(&mut l2, sel, Ink::Default, false, &vec![' ']);
    proof {
        assert(l2@ =~= spec_double_line2(sel, zebra, c@, build as nat));
    }
    l2
}

/// One row as two lines, each exactly `cols` cells: line 1 carries the
/// status, the pill, the summary and the token count; line 2 the
/// provenance, repo and branch, PR, provider, model, effort and elapsed
/// time. `zebra` is the card's parity in the viewport, which picks the
/// bracket's ink.
pub fn render_double_card(row: &Row, cols: usize, any_selected: bool, zebra: bool) -> (r: Card)
    requires
        cols < usize::MAX,
    ensures
        r.lines@.len() == 2,
        forall|i: int|
            0 <= i < 2 ==> (#[trigger] r.lines@[i])@ == spec_double_card(row@, cols as nat, zebra)[i],
        forall|i: int| 0 <= i < 2 ==> spec_cells(line_text((#[trigger] r.lines@[i])@)) == cols,
        r.fade == spec_row_fade(row@, any_selected),
{
    let sel = row.selected;
    let build = if cols >= DOUBLE_COLLAPSED_COLS {
        cols
    } else {
        DOUBLE_COLLAPSED_COLS
    };
    let c = card_cells(&row.content);
    let l1 = double_line1(sel, zebra, &c, build);
    let l2 = double_line2(sel, zebra, &c, build);
    let a = clip(&l1, cols);
    let b = clip(&l2, cols);
    let lines = vec![a, b];
    Card { lines, fade: row_fade(row, any_selected) }
}

// ── the four-line card ──────────────────────────────────────────────────────

/// The four-line card's build width: the pane, or its floor.
pub open spec fn card_build(cols: nat) -> nat {
    if cols >= CARD_COLLAPSED_COLS {
        cols
    } else {
        CARD_COLLAPSED_COLS as nat
    }
}

/// Line 1 of the four-line card, before the clip: the status mark (the
/// spinner at `frame` while the row works), the rail in the repo's colour,
/// the pill, and the summary, which says nothing in a cell too narrow for
/// more than an ellipsis.
pub open spec fn spec_card_line1(sel: bool, c: CardCellsView, build: nat, frame: u64) -> Seq<Cell> {
    let mark = if c.thinking {
        spec_think_frame(frame)
    } else {
        c.mark
    };
    let has_chip = !(c.chip is Absent);
    let gap: Seq<char> = if has_chip {
        seq![' ']
    } else {
        Seq::empty()
    };
    let summary_w = if has_chip {
        sat_sub(build, (CHROME + 11) as nat)
    } else {
        sat_sub(build, (CHROME + 1) as nat)
    };
    let summary = if summary_w < 4 {
        Seq::empty()
    } else {
        c.summary
    };
    seg(sel, c.mark_ink, true, seq![' ', mark, ' ']) + seg(sel, c.repo_ink, true, seq![RULE, ' '])
        + spec_chip(sel, c.chip) + seg(sel, Ink::Default, true, gap + spec_pad(summary, summary_w))
        + seg(sel, Ink::Default, false, seq![' '])
}

/// The provenance mark of the four-line card and its fixed ink.
pub open spec fn spec_card_prov(p: Option<char>) -> (char, Ink) {
    match p {
        Some(g) => if g == WORKTREE_MARK {
            (g, Ink::Worktree)
        } else {
            (g, Ink::Branch)
        },
        None => (' ', Ink::Default),
    }
}

/// The repo-and-branch budget of the four-line card's line 2.
pub open spec fn card_budget(c: CardCellsView, build: nat) -> nat {
    let expanded = build >= CARD_EXPANDED_COLS;
    let pr_w: nat = if expanded && c.pr is Some {
        (PR_W + 1) as nat
    } else {
        0
    };
    let tail_w: nat = if expanded {
        META_TAIL_W as nat
    } else {
        0
    };
    sat_sub(build, (CHROME + pr_w + tail_w + 1) as nat)
}

/// The repo cell, and the branch where it can carry its minimum.
pub open spec fn spec_card_repo(sel: bool, c: CardCellsView, budget: nat) -> Seq<Cell> {
    let rw = repo_cells(c.repo);
    if c.branch.len() == 0 || budget < rw + 1 + BRANCH_MIN {
        seg(sel, c.repo_ink, true, spec_pad(c.repo, budget))
    } else {
        seg(sel, c.repo_ink, true, spec_pad(c.repo, rw)) + seg(
            sel,
            Ink::Meta,
            true,
            spaced(spec_pad(c.branch, sat_sub(budget, rw + 1))),
        )
    }
}

/// The expanded profile's tail of line 2: provider, model and effort.
pub open spec fn spec_card_tail(sel: bool, c: CardCellsView, expanded: bool) -> Seq<Cell> {
    if expanded {
        spec_provider_cell(sel, c.provider) + seg(
            sel,
            Ink::Meta,
            true,
            spaced(spec_pad(c.model, MODEL_W as nat)),
        ) + seg(sel, Ink::Meta, true, spaced(spec_pad(c.effort, EFFORT_W as nat)))
    } else {
        Seq::empty()
    }
}

/// Line 2 of the four-line card, before the clip: provenance, rail, repo
/// and branch, then (expanded) PR, provider, model and effort.
pub open spec fn spec_card_line2(sel: bool, c: CardCellsView, build: nat) -> Seq<Cell> {
    let expanded = build >= CARD_EXPANDED_COLS;
    let (prov, prov_ink) = spec_card_prov(c.prov);
    let pr = if expanded {
        spec_pr_cell(sel, c.pr)
    } else {
        Seq::empty()
    };
    seg(sel, prov_ink, true, seq![' ', prov, ' ']) + seg(sel, c.repo_ink, true, seq![RULE, ' '])
        + spec_card_repo(sel, c, card_budget(c, build)) + pr + spec_card_tail(sel, c, expanded)
        + seg(sel, Ink::Default, false, seq![' '])
}

/// The token cell's text and ink on line 3.
pub open spec fn spec_card_tokens(t: TokenView) -> (Seq<char>, Ink) {
    match t {
        TokenView::Count(x, band) => (x, band),
        TokenView::Term => (term_text(), Ink::Meta),
        TokenView::Blank => (Seq::empty(), Ink::Default),
    }
}

/// Line 3 of the four-line card up to its measurements: the subagent mark,
/// the rail and the token count, left-aligned.
pub open spec fn spec_card_head3(sel: bool, c: CardCellsView) -> Seq<Cell> {
    let subs = if c.subs {
        SUBS_MARK
    } else {
        ' '
    };
    let (text, ink) = spec_card_tokens(c.tokens);
    seg(sel, Ink::Subs, true, seq![' ', subs, ' ']) + seg(sel, c.repo_ink, true, seq![RULE, ' '])
        + seg(sel, ink, true, spec_pad(text, TOKEN_W as nat))
}

/// Line 3 of the four-line card, before the clip. Expanded: the elapsed
/// clock, what the row asks for filling every cell the numbers leave, and
/// the turn clock. Collapsed: the elapsed clock alone, flush right one
/// margin in.
pub open spec fn spec_card_line3(sel: bool, c: CardCellsView, build: nat) -> Seq<Cell> {
    let head = spec_card_head3(sel, c);
    if build >= CARD_EXPANDED_COLS {
        let wants_w = sat_sub(build, 20);
        head + seg(
            sel,
            Ink::Meta,
            true,
            spaces(TOKEN_GAP as nat) + spec_rpad(c.elapsed, ELAPSED_W as nat),
        ) + seg(sel, Ink::NeedsYou, true, spaced(spec_pad(c.wants, wants_w))) + seg(
            sel,
            Ink::Turn,
            true,
            spaced(spec_rpad(c.turn, TURN_W as nat)),
        ) + seg(sel, Ink::Default, false, seq![' '])
    } else {
        let fill = sat_sub(build, (spec_cells(line_text(head)) + ELAPSED_W + 1) as nat);
        head + seg(sel, Ink::Default, false, spaces(fill)) + seg(
            sel,
            Ink::Meta,
            true,
            spec_rpad(c.elapsed, ELAPSED_W as nat),
        ) + seg(sel, Ink::Default, false, seq![' '])
    }
}

/// Line 4: the shadow rule, full width, on glass even under a selection.
pub open spec fn spec_card_line4(build: nat) -> Seq<Cell> {
    piece(Seq::new(build, |i: int| SHADOW), Style { ink: Ink::Shadow, faded: false, bg: Bg::Glass })
}

/// The four-line card: every line built at the build width and clipped to
/// the pane.
pub open spec fn spec_card(row: RowView, cols: nat, frame: u64) -> Seq<Seq<Cell>> {
    let c = spec_card_cells(row.content);
    let build = card_build(cols);
    seq![
        spec_clip(spec_card_line1(row.selected, c, build, frame), cols),
        spec_clip(spec_card_line2(row.selected, c, build), cols),
        spec_clip(spec_card_line3(row.selected, c, build), cols),
        spec_clip(spec_card_line4(build), cols),
    ]
}

/// Builds line 1 of the four-line card.
fn card_line1(sel: bool, c: &CardCells, build: usize, frame: u64) -> (r: Vec<Cell>)
    requires
        build >= CARD_COLLAPSED_COLS,
        build < usize::MAX,
    ensures
        r@ == spec_card_line1(sel, c@, build as nat, frame),
{
    let mark = if c.thinking {
        think_frame(frame)
    } else {
        c.mark
    };
    let mut l: Vec<Cell> = Vec::new();
    push_seg(&mut l, sel, c.mark_ink, true, &vec![' ', mark, ' ']);
    push_seg(&mut l, sel, c.repo_ink, true, &vec![RULE, ' ']);
    push_chip(&mut l, sel, &c.chip);
    let has_chip = match c.chip {
        ChipCell::Absent => false,
        _ => true,
    };
    let summary_w = if has_chip {
        build - (CHROME + 11)
    } else {
        build - (CHROME + 1)
    };
    let mut text: Vec<char> = if has_chip {
        vec![' ']
    } else {
        Vec::new()
    };
    let cell = if summary_w < 4 {
        pad(&Vec::new(), summary_w)
    } else {
        pad(&c.summary, summary_w)
    };
    append_chars(&mut text, &cell);
    push_seg(&mut l, sel, Ink::Default, true, &text);
    push_seg(&mut l, sel, Ink::Default, false, &vec![' ']);
    proof {
        assert(chip_view(&c.chip) == c@.chip);
        assert(l@ =~= spec_card_line1(sel, c@, build as nat, frame));
    }
    l
}

/// Paints the four-line card's repo and branch.
fn push_card_repo(l: &mut Vec<Cell>, sel: bool, c: &CardCells, budget: usize)
    requires
        budget < usize::MAX,
    ensures
        final(l)@ == old(l)@ + spec_card_repo(sel, c@, budget as nat),
{
    let rw = repo_cells_of(&c.repo);
    if c.branch.len() == 0 || budget < rw + 1 + BRANCH_MIN {
        push_seg(l, sel, c.repo_ink, true, &pad(&c.repo, budget));
    } else {
        let ghost mid = l@;
        push_seg(l, sel, c.repo_ink, true, &pad(&c.repo, rw));
        push_seg(l, sel, Ink::Meta, true, &space_then(pad(&c.branch, budget - (rw + 1))));
        proof {
            assert(l@ =~= old(l)@ + spec_card_repo(sel, c@, budget as nat));
        }
    }
}

/// Paints the expanded profile's PR cell.
fn push_card_pr(l: &mut Vec<Cell>, sel: bool, c: &CardCells, expanded: bool)
    ensures
        final(l)@ == old(l)@ + if expanded {
            spec_pr_cell(sel, c@.pr)
        } else {
            Seq::empty()
        },
{
    if expanded {
        match c.pr {
            Some(n) => push_seg(l, sel, Ink::Pr, true, &space_then(pad(&pr_chars(n), PR_W))),
            None => {
                assert(l@ =~= old(l)@ + Seq::<Cell>::empty());
            },
        }
    } else {
        assert(l@ =~= old(l)@ + Seq::<Cell>::empty());
    }
}

/// Paints the expanded profile's provider, model and effort.
fn push_card_tail(l: &mut Vec<Cell>, sel: bool, c: &CardCells, expanded: bool)
    ensures
        final(l)@ == old(l)@ + spec_card_tail(sel, c@, expanded),
{
    if expanded {
        push_provider(l, sel, c.provider);
        push_seg(l, sel, Ink::Meta, true, &space_then(pad(&c.model, MODEL_W)));
        push_seg(l, sel, Ink::Meta, true, &space_then(pad(&c.effort, EFFORT_W)));
        proof {
            assert(l@ =~= old(l)@ + spec_card_tail(sel, c@, expanded));
        }
    } else {
        assert(l@ =~= old(l)@ + Seq::<Cell>::empty());
    }
}

/// Builds line 2 of the four-line card.
fn card_line2(sel: bool, c: &CardCells, build: usize) -> (r: Vec<Cell>)
    requires
        build >= CARD_COLLAPSED_COLS,
        build < usize::MAX,
    ensures
        r@ == spec_card_line2(sel, c@, build as nat),
{
    let ghost cv = c@;
    let expanded = build >= CARD_EXPANDED_COLS;
    let (prov, prov_ink) = match c.prov {
        Some(g) => if g == WORKTREE_MARK {
            (g, Ink::Worktree)
        } else {
            (g, Ink::Branch)
        },
        None => (' ', Ink::Default),
    };
    let mut l: Vec<Cell> = Vec::new();
    push_seg(&mut l, sel, prov_ink, true, &vec![' ', prov, ' ']);
    push_seg(&mut l, sel, c.repo_ink, true, &vec![RULE, ' ']);
    let pr_w: usize = if expanded && c.pr.is_some() {
        PR_W + 1
    } else {
        0
    };
    let tail_w: usize = if expanded {
        META_TAIL_W
    } else {
        0
    };
    let budget = build - (CHROME + pr_w + tail_w + 1);
    proof {
        assert(budget == card_budget(cv, build as nat));
    }
    push_card_repo(&mut l, sel, c, budget);
    push_card_pr(&mut l, sel, c, expanded);
    push_card_tail(&mut l, sel, c, expanded);
    push_seg(&mut l, sel, Ink::Default, false, &vec![' ']);
    proof {
        assert(spec_card_prov(cv.prov) == (prov, prov_ink));
        assert(l@ =~= spec_card_line2(sel, cv, build as nat));
    }
    l
}

/// Builds line 3 of the four-line card up to its measurements.
fn card_head3(sel: bool, c: &CardCells) -> (r: Vec<Cell>)
    ensures
        r@ == spec_card_head3(sel, c@),
{
    let subs = if c.subs {
        SUBS_MARK
    } else {
        ' '
    };
    let mut l: Vec<Cell> = Vec::new();
    push_seg(&mut l, sel, Ink::Subs, true, &vec![' ', subs, ' ']);
    push_seg(&mut l, sel, c.repo_ink, true, &vec![RULE, ' ']);
    match &c.tokens {
        TokenCell::Count(x, band) => push_seg(&mut l, sel, *band, true, &pad(x, TOKEN_W)),
        TokenCell::Term => push_seg(
            &mut l,
            sel,
            Ink::Meta,
            true,
            &pad(&vec!['T', 'E', 'R', 'M'], TOKEN_W),
        ),
        TokenCell::Blank => push_seg(&mut l, sel, Ink::Default, true, &pad(&Vec::new(), TOKEN_W)),
    }
    proof {
        assert(token_view(&c.tokens) == c@.tokens);
        assert(l@ =~= spec_card_head3(sel, c@));
    }
    l
}

/// Builds line 3 of the four-line card.
fn card_line3(sel: bool, c: &CardCells, build: usize) -> (r: Vec<Cell>)
    requires
        build >= CARD_COLLAPSED_COLS,
        build < usize::MAX,
    ensures
        r@ == spec_card_line3(sel, c@, build as nat),
{
    let mut l = card_head3(sel, c);
    if build >= CARD_EXPANDED_COLS {
        let wants_w = build - 20;
        let mut clocks: Vec<char> = Vec::new();
        push_spaces(&mut clocks, TOKEN_GAP);
        append_chars(&mut clocks, &rpad(&c.elapsed, ELAPSED_W));
        proof {
            assert(Seq::<char>::empty() + spaces(TOKEN_GAP as nat) =~= spaces(TOKEN_GAP as nat));
        }
        push_seg(&mut l, sel, Ink::Meta, true, &clocks);
        push_seg(&mut l, sel, Ink::NeedsYou, true, &space_then(pad(&c.wants, wants_w)));
        push_seg(&mut l, sel, Ink::Turn, true, &space_then(rpad(&c.turn, TURN_W)));
        push_seg(&mut l, sel, Ink::Default, false, &vec![' ']);
    } else {
        let used = line_cells_capped(&l, build);
        let fill = if used <= build && build - used >= ELAPSED_W + 1 {
            build - used - (ELAPSED_W + 1)
        } else {
            0
        };
        let mut gap: Vec<char> = Vec::new();
        push_spaces(&mut gap, fill);
        proof {
            assert(Seq::<char>::empty() + spaces(fill as nat) =~= spaces(fill as nat));
        }
        push_seg(&mut l, sel, Ink::Default, false, &gap);
        push_seg(&mut l, sel, Ink::Meta, true, &rpad(&c.elapsed, ELAPSED_W));
        push_seg(&mut l, sel, Ink::Default, false, &vec![' ']);
    }
    proof {
        assert(l@ =~= spec_card_line3(sel, c@, build as nat));
    }
    l
}

/// Builds line 4 of the four-line card.
fn card_line4(build: usize) -> (r: Vec<Cell>)
    ensures
        r@ == spec_card_line4(build as nat),
{
    let st = Style { ink: Ink::Shadow, faded: false, bg: Bg::Glass };
    let mut l: Vec<Cell> = Vec::new();
    let mut i: usize = 0;
    while i < build
        invariant
            i <= build,
            l@ == piece(Seq::new(i as nat, |k: int| SHADOW), st),
        decreases build - i,
    {
        l.push((SHADOW, st));
        proof {
            assert(piece(Seq::new((i + 1) as nat, |k: int| SHADOW), st) =~= piece(
                Seq::new(i as nat, |k: int| SHADOW),
                st,
            ).push((SHADOW, st)));
        }
        i = i + 1;
    }
    l
}

/// One row as four lines, each exactly `cols` cells: status, pill and
/// summary; provenance, repo, branch, PR, provider, model and effort;
/// subagents, tokens, elapsed time, what the row asks for and the turn
/// clock; and the shadow rule that closes the card. `frame` drives the
/// spinner of a working row.
pub fn render_card(row: &Row, cols: usize, any_selected: bool, frame: u64) -> (r: Card)
    requires
        cols < usize::MAX,
    ensures
        r.lines@.len() == 4,
        forall|i: int| 0 <= i < 4 ==> (#[trigger] r.lines@[i])@ == spec_card(row@, cols as nat, frame)[i],
        forall|i: int| 0 <= i < 4 ==> spec_cells(line_text((#[trigger] r.lines@[i])@)) == cols,
        r.fade == spec_row_fade(row@, any_selected),
{
    let sel = row.selected;
    let build = if cols >= CARD_COLLAPSED_COLS {
        cols
    } else {
        CARD_COLLAPSED_COLS
    };
    let c = card_cells(&row.content);
    let l1 = card_line1(sel, &c, build, frame);
    let l2 = card_line2(sel, &c, build);
    let l3 = card_line3(sel, &c, build);
    let l4 = card_line4(build);
    let lines = vec![clip(&l1, cols), clip(&l2, cols), clip(&l3, cols), clip(&l4, cols)];
    Card { lines, fade: row_fade(row, any_selected) }
}

// ── what holds of the cards across calls ────────────────────────────────────

/// A fitting head of a text survives the cut: when its first `k` characters
/// fit in `n` cells, the cut keeps at least those `k`.
proof fn lemma_prefix_covers(t: Seq<char>, n: nat, k: int)
    requires
        0 <= k <= t.len(),
        spec_cells(t.take(k)) <= n,
    ensures
        spec_cell_prefix(t, n).len() >= k,
    decreases k,
{
    if k > 0 {
        let d = t.drop_first();
        assert(t.take(k) =~= seq![t[0]] + d.take(k - 1));
        lemma_cells_concat(seq![t[0]], d.take(k - 1));
        lemma_cells_one(t[0]);
        lemma_prefix_covers(d, (n - spec_char_cells(t[0])) as nat, k - 1);
    }
}

/// What a line says, cut and padded, depends on nothing but what it says.
proof fn lemma_clip_text(l: Seq<Cell>, n: nat)
    ensures
        line_text(spec_clip(l, n)) == spec_cell_prefix(line_text(l), n) + spaces(
            (n - spec_cells(spec_cell_prefix(line_text(l), n))) as nat,
        ),
{
    lemma_cell_prefix(line_text(l), n);
    let cut = spec_cell_prefix(line_text(l), n);
    assert(line_text(spec_clip(l, n)) =~= cut + spaces((n - spec_cells(cut)) as nat));
}

/// A line's head that fits the pane comes through the clip untouched.
proof fn lemma_clip_keeps_head(l: Seq<Cell>, k: int, n: nat)
    requires
        0 <= k <= l.len(),
        spec_cells(line_text(l.take(k))) <= n,
    ensures
        spec_clip(l, n).take(k) == l.take(k),
        spec_clip(l, n).len() >= k,
        forall|i: int| 0 <= i < k ==> #[trigger] spec_clip(l, n)[i] == l[i],
{
    let t = line_text(l);
    assert(line_text(l.take(k)) =~= t.take(k));
    lemma_prefix_covers(t, n, k);
    lemma_cell_prefix(t, n);
    let cut = spec_cell_prefix(t, n);
    assert(spec_clip(l, n).take(k) =~= l.take(k));
}

/// Texts whose characters take the same cells, one by one, are cut at the
/// same place and to the same width.
proof fn lemma_prefix_same_widths(t1: Seq<char>, t2: Seq<char>, n: nat)
    requires
        t1.len() == t2.len(),
        forall|i: int| 0 <= i < t1.len() ==> spec_char_cells(#[trigger] t1[i]) == spec_char_cells(t2[i]),
    ensures
        spec_cell_prefix(t1, n).len() == spec_cell_prefix(t2, n).len(),
        spec_cells(spec_cell_prefix(t1, n)) == spec_cells(spec_cell_prefix(t2, n)),
    decreases t1.len(),
{
    if t1.len() > 0 && spec_char_cells(t1[0]) <= n {
        let d1 = t1.drop_first();
        let d2 = t2.drop_first();
        assert(spec_char_cells(t1[0]) == spec_char_cells(t2[0]));
        assert forall|i: int| 0 <= i < d1.len() implies spec_char_cells(#[trigger] d1[i])
            == spec_char_cells(d2[i]) by {
            assert(spec_char_cells(t1[i + 1]) == spec_char_cells(t2[i + 1]));
        }
        let m = (n - spec_char_cells(t1[0])) as nat;
        lemma_prefix_same_widths(d1, d2, m);
        lemma_cells_concat(seq![t1[0]], spec_cell_prefix(d1, m));
        lemma_cells_concat(seq![t2[0]], spec_cell_prefix(d2, m));
        lemma_cells_one(t1[0]);
        lemma_cells_one(t2[0]);
    } else if t1.len() > 0 {
        assert(spec_char_cells(t1[0]) == spec_char_cells(t2[0]));
    }
}

/// Every mark a card's first column can hold takes one cell.
proof fn lemma_marks_take_one_cell(c: ContentView, frame: u64)
    ensures
        spec_char_cells(spec_card_cells(c).mark) == 1,
        spec_char_cells(spec_think_frame(frame)) == 1,
        spec_card_cells(c).prov matches Some(g) ==> spec_char_cells(g) == 1,
        spec_char_cells(SUBS_MARK) == 1,
        spec_char_cells(RULE) == 1,
        spec_char_cells(CARD_TOP) == 1,
        spec_char_cells(CARD_BOT) == 1,
        spec_char_cells(LCAP) == 1,
        spec_char_cells(RCAP) == 1,
        spec_char_cells(' ') == 1,
{
    assert(spec_char_cells('\u{25cf}') == 1);
    assert(spec_char_cells('\u{2716}') == 1);
    assert(spec_char_cells('\u{21bb}') == 1);
    assert(spec_char_cells('\u{25cb}') == 1);
    assert(spec_char_cells('\u{25c9}') == 1);
    assert(spec_char_cells('\u{25cc}') == 1);
    assert(spec_char_cells(CONSOLE) == 1);
    assert(spec_char_cells(BRANCH_MARK) == 1);
    assert(spec_char_cells(WORKTREE_MARK) == 1);
    assert(spec_char_cells('\u{00b7}') == 1);
    assert(spec_char_cells('\u{2722}') == 1);
    assert(spec_char_cells('\u{2733}') == 1);
    assert(spec_char_cells('\u{2736}') == 1);
    assert(spec_char_cells('\u{273b}') == 1);
    assert(spec_char_cells('\u{273d}') == 1);
}

/// A run of single-cell characters takes as many cells as it has
/// characters.
proof fn lemma_cells_of_ones(t: Seq<char>)
    requires
        forall|i: int| 0 <= i < t.len() ==> spec_char_cells(#[trigger] t[i]) == 1,
    ensures
        spec_cells(t) == t.len(),
    decreases t.len(),
{
    if t.len() > 0 {
        assert(spec_char_cells(t[t.len() - 1]) == 1);
        lemma_cells_of_ones(t.drop_last());
    }
}

/// The parity changes no character of line 1.
proof fn lemma_zebra_text1(sel: bool, c: CardCellsView, b: nat)
    ensures
        line_text(spec_double_line1(sel, false, c, b)) == line_text(
            spec_double_line1(sel, true, c, b),
        ),
{
    assert(line_text(spec_double_line1(sel, false, c, b)) =~= line_text(
        spec_double_line1(sel, true, c, b),
    ));
}

/// The parity changes no character of line 2.
proof fn lemma_zebra_text2(sel: bool, c: CardCellsView, b: nat)
    ensures
        line_text(spec_double_line2(sel, false, c, b)) == line_text(
            spec_double_line2(sel, true, c, b),
        ),
{
    let ah = spec_double_head2(sel, false, c, b);
    let bh = spec_double_head2(sel, true, c, b);
    assert(line_text(ah) =~= line_text(bh));
    assert(line_text(spec_double_line2(sel, false, c, b)) =~= line_text(
        spec_double_line2(sel, true, c, b),
    ));
}

/// The bracket stands fourth on line 1, in the parity's ink.
proof fn lemma_zebra_bracket1(sel: bool, z: bool, c: CardCellsView, b: nat, cols: nat)
    requires
        cols >= 4,
        spec_char_cells(c.mark) == 1,
    ensures
        spec_clip(spec_double_line1(sel, z, c, b), cols)[3].1.ink == Ink::Bracket(z),
{
    let l = spec_double_line1(sel, z, c, b);
    lemma_marks_take_one_cell(ContentView::Terminal {
        name: Seq::empty(),
        status: TermStatus::Idle,
        provenance: Provenance::Main,
        repo: None,
        repo_ink: None,
        command: Seq::empty(),
        pr: None,
        branch: Seq::empty(),
        elapsed: None,
    }, 0);
    assert(l[3].1.ink == Ink::Bracket(z));
    assert(line_text(l.take(4)) =~= seq![' ', c.mark, ' ', CARD_TOP]);
    lemma_cells_of_ones(seq![' ', c.mark, ' ', CARD_TOP]);
    assert(l.len() >= 4);
    lemma_clip_keeps_head(l, 4, cols);
    assert(spec_clip(l, cols)[3] == l[3]);
}

/// The bracket stands fourth on line 2, in the parity's ink.
proof fn lemma_zebra_bracket2(sel: bool, z: bool, c: CardCellsView, b: nat, cols: nat)
    requires
        cols >= 4,
        c.prov matches Some(g) ==> spec_char_cells(g) == 1,
    ensures
        spec_clip(spec_double_line2(sel, z, c, b), cols)[3].1.ink == Ink::Bracket(z),
{
    let l = spec_double_line2(sel, z, c, b);
    let prov = match c.prov {
        Some(g) => g,
        None => ' ',
    };
    lemma_marks_take_one_cell(ContentView::Terminal {
        name: Seq::empty(),
        status: TermStatus::Idle,
        provenance: Provenance::Main,
        repo: None,
        repo_ink: None,
        command: Seq::empty(),
        pr: None,
        branch: Seq::empty(),
        elapsed: None,
    }, 0);
    assert(l[3].1.ink == Ink::Bracket(z));
    assert(line_text(l.take(4)) =~= seq![' ', prov, ' ', CARD_BOT]);
    lemma_cells_of_ones(seq![' ', prov, ' ', CARD_BOT]);
    assert(l.len() >= 4);
    lemma_clip_keeps_head(l, 4, cols);
    assert(spec_clip(l, cols)[3] == l[3]);
}

/// The zebra costs no cells: the two parities of a two-line card say the
/// same thing cell for cell, and differ only in the bracket's ink, which
/// each parity wears on both lines.
pub proof fn law_the_zebra_costs_no_cells(row: RowView, cols: nat)
    ensures
        line_text(spec_double_card(row, cols, false)[0]) == line_text(
            spec_double_card(row, cols, true)[0],
        ),
        line_text(spec_double_card(row, cols, false)[1]) == line_text(
            spec_double_card(row, cols, true)[1],
        ),
        cols >= 4 ==> spec_double_card(row, cols, false)[0][3].1.ink == Ink::Bracket(false)
            && spec_double_card(row, cols, false)[1][3].1.ink == Ink::Bracket(false)
            && spec_double_card(row, cols, true)[0][3].1.ink == Ink::Bracket(true)
            && spec_double_card(row, cols, true)[1][3].1.ink == Ink::Bracket(true),
{
    let c = spec_card_cells(row.content);
    let b = double_build(cols);
    let sel = row.selected;
    lemma_zebra_text1(sel, c, b);
    lemma_zebra_text2(sel, c, b);
    lemma_clip_text(spec_double_line1(sel, false, c, b), cols);
    lemma_clip_text(spec_double_line1(sel, true, c, b), cols);
    lemma_clip_text(spec_double_line2(sel, false, c, b), cols);
    lemma_clip_text(spec_double_line2(sel, true, c, b), cols);
    if cols >= 4 {
        lemma_marks_take_one_cell(row.content, 0);
        lemma_zebra_bracket1(sel, false, c, b, cols);
        lemma_zebra_bracket1(sel, true, c, b, cols);
        lemma_zebra_bracket2(sel, false, c, b, cols);
        lemma_zebra_bracket2(sel, true, c, b, cols);
    }
}

/// The spinner's cycle closes: ten frames on, the same glyph.
proof fn lemma_think_cycle(t: u64)
    requires
        t <= u64::MAX - 10,
    ensures
        spec_think_frame((t + 10) as u64) == spec_think_frame(t),
{
    vstd::arithmetic::div_mod::lemma_mod_add_multiples_vanish(t as int, 10);
    assert(((t + 10) as u64) % 10 == t % 10);
}

/// Line 1 at two frames differs only in the status mark.
proof fn lemma_card_line1_frames(sel: bool, c: CardCellsView, b: nat, f1: u64, f2: u64)
    requires
        c.thinking,
    ensures
        spec_card_line1(sel, c, b, f1) == spec_card_line1(sel, c, b, f2).update(
            1,
            (spec_think_frame(f1), spec_card_line1(sel, c, b, f2)[1].1),
        ),
{
    assert(spec_card_line1(sel, c, b, f1) =~= spec_card_line1(sel, c, b, f2).update(
        1,
        (spec_think_frame(f1), spec_card_line1(sel, c, b, f2)[1].1),
    ));
}

/// Only a working row's mark animates: a row that is not working renders
/// the same card at every frame; at any frame the lines below the first
/// are the same; the animation repeats every ten frames; and on a working
/// row two frames differ only in the status mark, which is the spinner's
/// glyph for the frame.
pub proof fn law_only_a_working_rows_mark_animates(row: RowView, cols: nat, f1: u64, f2: u64)
    ensures
        !spec_card_cells(row.content).thinking ==> spec_card(row, cols, f1) == spec_card(
            row,
            cols,
            f2,
        ),
        forall|i: int| 1 <= i < 4 ==> #[trigger] spec_card(row, cols, f1)[i] == spec_card(row, cols, f2)[i],
        f1 <= u64::MAX - 10 ==> spec_card(row, cols, (f1 + 10) as u64) == spec_card(row, cols, f1),
        spec_card_cells(row.content).thinking && cols >= 2 ==> spec_card(row, cols, f1)[0]
            == spec_card(row, cols, f2)[0].update(
            1,
            (spec_think_frame(f1), spec_card(row, cols, f2)[0][1].1),
        ),
{
    let c = spec_card_cells(row.content);
    let b = card_build(cols);
    let sel = row.selected;
    assert(spec_card(row, cols, f1).len() == 4);
    if f1 <= u64::MAX - 10 {
        lemma_think_cycle(f1);
        assert(spec_card_line1(sel, c, b, (f1 + 10) as u64) == spec_card_line1(sel, c, b, f1));
        assert(spec_card(row, cols, (f1 + 10) as u64) =~= spec_card(row, cols, f1));
    }
    if !c.thinking {
        assert(spec_card_line1(sel, c, b, f1) == spec_card_line1(sel, c, b, f2));
        assert(spec_card(row, cols, f1) =~= spec_card(row, cols, f2));
    }
    if c.thinking && cols >= 2 {
        let l1 = spec_card_line1(sel, c, b, f1);
        let l2 = spec_card_line1(sel, c, b, f2);
        lemma_card_line1_frames(sel, c, b, f1, f2);
        lemma_marks_take_one_cell(row.content, f1);
        lemma_marks_take_one_cell(row.content, f2);
        let t1 = line_text(l1);
        let t2 = line_text(l2);
        assert(l2.len() >= 3);
        assert(l2[1].0 == spec_think_frame(f2));
        assert forall|i: int| 0 <= i < t1.len() implies spec_char_cells(#[trigger] t1[i])
            == spec_char_cells(t2[i]) by {
            if i == 1 {
                assert(t1[1] == spec_think_frame(f1));
            } else {
                assert(t1[i] == t2[i]);
            }
        }
        lemma_prefix_same_widths(t1, t2, cols);
        assert(line_text(l2.take(2)) =~= seq![' ', spec_think_frame(f2)]);
        lemma_cells_of_ones(seq![' ', spec_think_frame(f2)]);
        lemma_clip_keeps_head(l2, 2, cols);
        lemma_cell_prefix(t1, cols);
        lemma_cell_prefix(t2, cols);
        assert(spec_clip(l1, cols) =~= spec_clip(l2, cols).update(
            1,
            (spec_think_frame(f1), spec_clip(l2, cols)[1].1),
        ));
    }
}

/// A pill takes nine cells, or none when there is no pill.
proof fn lemma_chip_cells(sel: bool, chip: ChipView)
    ensures
        spec_cells(line_text(spec_chip(sel, chip))) <= 9,
{
    lemma_marks_take_one_cell(ContentView::Terminal {
        name: Seq::empty(),
        status: TermStatus::Idle,
        provenance: Provenance::Main,
        repo: None,
        repo_ink: None,
        command: Seq::empty(),
        pr: None,
        branch: Seq::empty(),
        elapsed: None,
    }, 0);
    match chip {
        ChipView::Title(label, hue) => {
            let p = spec_pad(label, CHIP_W as nat);
            assert(line_text(spec_chip(sel, chip)) =~= seq![LCAP] + p + seq![RCAP]);
            lemma_pad_cells(label, CHIP_W as nat);
            lemma_cells_concat(seq![LCAP], p);
            lemma_cells_concat(seq![LCAP] + p, seq![RCAP]);
            lemma_cells_one(LCAP);
            lemma_cells_one(RCAP);
        },
        ChipView::Term(label) => {
            let p = spec_pad(label, CHIP_W as nat);
            assert(line_text(spec_chip(sel, chip)) =~= seq![LCAP] + p + seq![RCAP]);
            lemma_pad_cells(label, CHIP_W as nat);
            lemma_cells_concat(seq![LCAP], p);
            lemma_cells_concat(seq![LCAP] + p, seq![RCAP]);
            lemma_cells_one(LCAP);
            lemma_cells_one(RCAP);
        },
        ChipView::Absent => {
            assert(line_text(spec_chip(sel, chip)) =~= Seq::<char>::empty());
        },
    }
}

/// The four-line card's chrome: mark, air, rail, air.
pub open spec fn card_chrome(sel: bool, mark: char, mark_ink: Ink, rail: Ink) -> Seq<Cell> {
    seg(sel, mark_ink, true, seq![' ', mark, ' ']) + seg(sel, rail, true, seq![RULE, ' '])
}

/// Line 1's head: its chrome, then the pill.
pub open spec fn chrome_head1(sel: bool, c: CardCellsView, frame: u64) -> Seq<Cell> {
    let mark = if c.thinking {
        spec_think_frame(frame)
    } else {
        c.mark
    };
    card_chrome(sel, mark, c.mark_ink, c.repo_ink) + spec_chip(sel, c.chip)
}

/// Line 2's head: its chrome.
pub open spec fn chrome_head2(sel: bool, c: CardCellsView) -> Seq<Cell> {
    let (prov, prov_ink) = spec_card_prov(c.prov);
    card_chrome(sel, prov, prov_ink, c.repo_ink)
}

/// Line 3's head: its chrome.
pub open spec fn chrome_head3(sel: bool, c: CardCellsView) -> Seq<Cell> {
    let subs = if c.subs {
        SUBS_MARK
    } else {
        ' '
    };
    card_chrome(sel, subs, Ink::Subs, c.repo_ink)
}

/// The head of each content line: its chrome, with the pill after it on
/// line 1.
pub open spec fn card_heads(row: RowView, frame: u64) -> Seq<Seq<Cell>> {
    let c = spec_card_cells(row.content);
    seq![
        chrome_head1(row.selected, c, frame),
        chrome_head2(row.selected, c),
        chrome_head3(row.selected, c),
    ]
}

/// A chrome takes five cells.
proof fn lemma_chrome_cells(sel: bool, mark: char, mark_ink: Ink, rail: Ink)
    requires
        spec_char_cells(mark) == 1,
    ensures
        spec_cells(line_text(card_chrome(sel, mark, mark_ink, rail))) == 5,
        line_text(card_chrome(sel, mark, mark_ink, rail)) == seq![' ', mark, ' ', RULE, ' '],
{
    lemma_marks_take_one_cell(ContentView::Terminal {
        name: Seq::empty(),
        status: TermStatus::Idle,
        provenance: Provenance::Main,
        repo: None,
        repo_ink: None,
        command: Seq::empty(),
        pr: None,
        branch: Seq::empty(),
        elapsed: None,
    }, 0);
    assert(line_text(card_chrome(sel, mark, mark_ink, rail)) =~= seq![' ', mark, ' ', RULE, ' ']);
    lemma_cells_of_ones(seq![' ', mark, ' ', RULE, ' ']);
}

/// Line 1 opens with its head at any width from the floor up.
proof fn lemma_head1_kept(row: RowView, cols: nat, frame: u64)
    requires
        cols >= CARD_COLLAPSED_COLS,
    ensures
        spec_card(row, cols, frame)[0].take(card_heads(row, frame)[0].len() as int) == card_heads(
            row,
            frame,
        )[0],
        line_text(card_heads(row, frame)[0]).take(5) =~= seq![
            ' ',
            line_text(card_heads(row, frame)[0])[1],
            ' ',
            RULE,
            ' ',
        ],
{
    let c = spec_card_cells(row.content);
    let sel = row.selected;
    let h = chrome_head1(sel, c, frame);
    lemma_marks_take_one_cell(row.content, frame);
    let mark = if c.thinking {
        spec_think_frame(frame)
    } else {
        c.mark
    };
    let ch = card_chrome(sel, mark, c.mark_ink, c.repo_ink);
    lemma_chrome_cells(sel, mark, c.mark_ink, c.repo_ink);
    lemma_chip_cells(sel, c.chip);
    lemma_cells_concat(line_text(ch), line_text(spec_chip(sel, c.chip)));
    assert(line_text(h) =~= line_text(ch) + line_text(spec_chip(sel, c.chip)));
    let l = spec_card_line1(sel, c, card_build(cols), frame);
    assert(l.take(h.len() as int) =~= h);
    lemma_clip_keeps_head(l, h.len() as int, cols);
    assert(line_text(h).take(5) =~= line_text(ch));
}

/// Line 2 opens with its head at any width from the floor up.
proof fn lemma_head2_kept(row: RowView, cols: nat, frame: u64)
    requires
        cols >= CARD_COLLAPSED_COLS,
    ensures
        spec_card(row, cols, frame)[1].take(card_heads(row, frame)[1].len() as int) == card_heads(
            row,
            frame,
        )[1],
        line_text(card_heads(row, frame)[1]).take(5) =~= seq![
            ' ',
            line_text(card_heads(row, frame)[1])[1],
            ' ',
            RULE,
            ' ',
        ],
{
    let c = spec_card_cells(row.content);
    let sel = row.selected;
    let h = chrome_head2(sel, c);
    lemma_marks_take_one_cell(row.content, frame);
    let (prov, prov_ink) = spec_card_prov(c.prov);
    lemma_chrome_cells(sel, prov, prov_ink, c.repo_ink);
    let l = spec_card_line2(sel, c, card_build(cols));
    assert(l.take(h.len() as int) =~= h);
    lemma_clip_keeps_head(l, h.len() as int, cols);
}

/// Line 3 opens with its head at any width from the floor up.
proof fn lemma_head3_kept(row: RowView, cols: nat, frame: u64)
    requires
        cols >= CARD_COLLAPSED_COLS,
    ensures
        spec_card(row, cols, frame)[2].take(card_heads(row, frame)[2].len() as int) == card_heads(
            row,
            frame,
        )[2],
        line_text(card_heads(row, frame)[2]).take(5) =~= seq![
            ' ',
            line_text(card_heads(row, frame)[2])[1],
            ' ',
            RULE,
            ' ',
        ],
{
    let c = spec_card_cells(row.content);
    let sel = row.selected;
    let h = chrome_head3(sel, c);
    lemma_marks_take_one_cell(row.content, frame);
    let subs = if c.subs {
        SUBS_MARK
    } else {
        ' '
    };
    lemma_chrome_cells(sel, subs, Ink::Subs, c.repo_ink);
    let l = spec_card_line3(sel, c, card_build(cols));
    assert(spec_card_head3(sel, c).take(h.len() as int) =~= h);
    assert(l.take(h.len() as int) =~= h);
    lemma_clip_keeps_head(l, h.len() as int, cols);
}

/// At any width from the collapsed floor up, the content lines open with
/// their heads.
proof fn lemma_card_heads_kept(row: RowView, cols: nat, frame: u64)
    requires
        cols >= CARD_COLLAPSED_COLS,
    ensures
        forall|i: int|
            0 <= i < 3 ==> #[trigger] spec_card(row, cols, frame)[i].take(
                card_heads(row, frame)[i].len() as int,
            ) == card_heads(row, frame)[i],
        forall|i: int| 0 <= i < 3 ==> line_text(#[trigger] card_heads(row, frame)[i]).take(5) =~= seq![
            ' ',
            line_text(card_heads(row, frame)[i])[1],
            ' ',
            RULE,
            ' ',
        ],
{
    lemma_head1_kept(row, cols, frame);
    lemma_head2_kept(row, cols, frame);
    lemma_head3_kept(row, cols, frame);
}

/// The collapsed card crops cells without moving them: at any two widths
/// from the collapsed floor up, each content line opens with the same
/// chrome (its mark, then the rail at the fourth cell), and line 1 carries
/// the same pill after it, so the narrow card is the wide one cut, never
/// rearranged.
pub proof fn law_the_collapsed_card_crops_without_moving(
    row: RowView,
    cols1: nat,
    cols2: nat,
    frame: u64,
)
    requires
        cols1 >= CARD_COLLAPSED_COLS,
        cols2 >= CARD_COLLAPSED_COLS,
    ensures
        forall|i: int|
            0 <= i < 3 ==> #[trigger] spec_card(row, cols1, frame)[i].take(
                card_heads(row, frame)[i].len() as int,
            ) == spec_card(row, cols2, frame)[i].take(card_heads(row, frame)[i].len() as int),
        forall|i: int|
            0 <= i < 3 ==> #[trigger] spec_card(row, cols1, frame)[i].take(
                card_heads(row, frame)[i].len() as int,
            ) == card_heads(row, frame)[i],
        forall|i: int| 0 <= i < 3 ==> line_text(#[trigger] card_heads(row, frame)[i]).take(5) =~= seq![
            ' ',
            line_text(card_heads(row, frame)[i])[1],
            ' ',
            RULE,
            ' ',
        ],
{
    lemma_card_heads_kept(row, cols1, frame);
    lemma_card_heads_kept(row, cols2, frame);
    assert forall|i: int| 0 <= i < 3 implies #[trigger] spec_card(row, cols1, frame)[i].take(
        card_heads(row, frame)[i].len() as int,
    ) == spec_card(row, cols2, frame)[i].take(card_heads(row, frame)[i].len() as int) by {
        assert(spec_card(row, cols1, frame)[i].take(card_heads(row, frame)[i].len() as int)
            == card_heads(row, frame)[i]);
        assert(spec_card(row, cols2, frame)[i].take(card_heads(row, frame)[i].len() as int)
            == card_heads(row, frame)[i]);
    }
}

} // verus!
