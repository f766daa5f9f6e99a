use vstd::prelude::*;

use colored::Colorize;
use random_color::options::Luminosity;
use random_color::RandomColor;

use crate::log::{Log, LogEntry, LogIndex, ServerId, Term};
use crate::rpc::{rpc_name, AppendRequest, AppendResponse, SendableMessage, Target, VoteRequest, VoteResponse, RPC};
use crate::server::{NodeReplicationState, RaftServer, Role};

verus! {

/// How much detail a message is about
pub enum Level {
    /// State transitions + RPCs
    Overview,
    /// + function calls
    Requests,
    /// inner function workings
    Trace,
}

/// The indentation that sets a message of level `level` apart
pub open spec fn indent_of(level: Level) -> Seq<char> {
    match level {
        Level::Overview => ""@,
        Level::Requests => "  "@,
        Level::Trace => "    "@,
    }
}

impl Level {
    /// The indentation that sets a message of this level apart
    pub fn indent(&self) -> (s: &'static str)
        ensures
            s@ == indent_of(*self),
    {
        match self {
            Level::Overview => "",
            Level::Requests => "  ",
            Level::Trace => "    ",
        }
    }
}

/// The terminal escape sequence that ends a styled piece of text
pub open spec fn reset_seq() -> Seq<char> {
    seq!['\x1B', '[', '0', 'm']
}

/// `c` may stand between the brackets of a style sequence: a decimal digit
/// or the separator `;`
pub open spec fn sgr_char(c: char) -> bool {
    ('0' <= c && c <= '9') || c == ';'
}

/// `style` is a terminal style sequence (select graphic rendition): the
/// escape character, `[`, a nonempty list of decimal codes separated by `;`,
/// and `m`
pub open spec fn sgr(style: Seq<char>) -> bool {
    &&& style.len() >= 4
    &&& style[0] == '\x1B'
    &&& style[1] == '['
    &&& style[style.len() - 1] == 'm'
    &&& forall|i: int| 2 <= i < style.len() - 1 ==> sgr_char(#[trigger] style[i])
}

/// `out` shows `text`: either as it is, when the terminal gets no colours,
/// or preceded by a style sequence and followed by the reset sequence
pub open spec fn styled(text: Seq<char>, out: Seq<char>) -> bool {
    out == text || exists|style: Seq<char>| sgr(style) && out == style + text + reset_seq()
}

/// `text` with `style` put back after each reset sequence in it, so that a
/// styled piece nested in `text` does not end the outer style
pub open spec fn escape_resets(text: Seq<char>, style: Seq<char>) -> Seq<char>
    decreases text.len(),
{
    if text.len() == 0 {
        Seq::empty()
    } else if text.len() >= 4 && text.subrange(0, 4) == reset_seq() {
        reset_seq() + style + escape_resets(text.subrange(4, text.len() as int), style)
    } else {
        seq![text[0]] + escape_resets(text.subrange(1, text.len() as int), style)
    }
}

/// The style sequence of dimmed text
pub open spec fn dim_seq() -> Seq<char> {
    seq!['\x1B', '[', '2', 'm']
}

/// `dimmed` shows `text` dimmed: the text itself when the terminal gets no
/// colours, else the dim sequence, the text with the dim sequence put back
/// after each reset in it, and the reset sequence
pub open spec fn dims(text: Seq<char>, dimmed: Seq<char>) -> bool {
    dimmed == text || dimmed == dim_seq() + escape_resets(text, dim_seq()) + reset_seq()
}

/// `text` holds no escape character
pub open spec fn plain(text: Seq<char>) -> bool {
    forall|i: int| 0 <= i < text.len() ==> text[i] != '\x1B'
}

/// Renders `text` bold, black on white, through `colored::Colorize::{bold,
/// black, on_white}` and `ToString`; the result is the text itself (colours
/// off) or the text between the style sequence that the crate computes from
/// the style's and colours' codes and the reset sequence (the crate leaves text
/// without escape characters as it is in both cases). Which codes a true colour
/// gets depends on the terminal, so only the sequence's form is stated.
#[verifier::external_body]
fn paint_label(text: &str) -> (out: String)
    requires
        plain(text@),
    ensures
        styled(text@, out@),
{
    text.bold().black().on_white().to_string()
}

/// Renders `text` bold green through `colored::Colorize::{green, bold}`;
/// the result is the text itself or the text between a style sequence and the
/// reset sequence.
#[verifier::external_body]
fn paint_green(text: &str) -> (out: String)
    requires
        plain(text@),
    ensures
        styled(text@, out@),
{
    text.green().bold().to_string()
}

/// Renders `text` bold red through `colored::Colorize::{red, bold}`;
/// the result is the text itself or the text between a style sequence and the
/// reset sequence.
#[verifier::external_body]
fn paint_red(text: &str) -> (out: String)
    requires
        plain(text@),
    ensures
        styled(text@, out@),
{
    text.red().bold().to_string()
}

/// Renders `text` black on the colour `(r, g, b)` through
/// `colored::Colorize::{black, on_truecolor}`; the result is the text itself
/// or the text between a style sequence and the reset sequence.
#[verifier::external_body]
fn paint_on_colour(text: &str, r: u8, g: u8, b: u8) -> (out: String)
    requires
        plain(text@),
    ensures
        styled(text@, out@),
{
    text.black().on_truecolor(r, g, b).to_string()
}

/// Renders `text` bold black on blue through `colored::Colorize::{on_blue,
/// bold, black}`; the result is the text itself or the text between a style
/// sequence and the reset sequence.
#[verifier::external_body]
fn paint_on_blue(text: &str) -> (out: String)
    requires
        plain(text@),
    ensures
        styled(text@, out@),
{
    text.on_blue().bold().black().to_string()
}

/// Renders `text` bold black on yellow through `colored::Colorize::{on_yellow,
/// bold, black}`; the result is the text itself or the text between a style
/// sequence and the reset sequence.
#[verifier::external_body]
fn paint_on_yellow(text: &str) -> (out: String)
    requires
        plain(text@),
    ensures
        styled(text@, out@),
{
    text.on_yellow().bold().black().to_string()
}

/// Renders `text` bold black on grey through `colored::Colorize::{on_truecolor,
/// bold, black}`; the result is the text itself or the text between a style
/// sequence and the reset sequence.
#[verifier::external_body]
fn paint_on_grey(text: &str) -> (out: String)
    requires
        plain(text@),
    ensures
        styled(text@, out@),
{
    text.on_truecolor(140, 140, 140).bold().black().to_string()
}

/// Renders `text` dimmed through `colored::Colorize::dimmed` and `ToString`.
/// The crate gives the text as it is when colours are off; else the style
/// it computes for the dimmed style alone (`"\x1B[2m"`), the text with that
/// style put back after each reset sequence in it, and the reset sequence.
#[verifier::external_body]
fn paint_dimmed(text: &str) -> (out: String)
    ensures
        dims(text@, out@),
{
    text.dimmed().to_string()
}

/// A light colour picked by `random_color::RandomColor` from `seed`. Nothing
/// is stated of it: the generator it seeds differs between platforms.
#[verifier::external_body]
fn light_colour(seed: u32) -> (u8, u8, u8) {
    let [r, g, b] = RandomColor::new().luminosity(Luminosity::Light).seed(seed).to_rgb_array();
    (r, g, b)
}

/// The decimal digit `d`
pub open spec fn digit(d: nat) -> char {
    if d == 0 {
        '0'
    } else if d == 1 {
        '1'
    } else if d == 2 {
        '2'
    } else if d == 3 {
        '3'
    } else if d == 4 {
        '4'
    } else if d == 5 {
        '5'
    } else if d == 6 {
        '6'
    } else if d == 7 {
        '7'
    } else if d == 8 {
        '8'
    } else {
        '9'
    }
}

/// The decimal representation of `n`, without leading zeros
pub open spec fn decimal(n: nat) -> Seq<char>
    decreases n,
{
    if n < 10 {
        seq![digit(n)]
    } else {
        decimal(n / 10).push(digit(n % 10))
    }
}

/// What a terminal shows of `s` from where a style sequence is open
/// (`open`) or not: every character outside the style sequences, which run
/// from an escape character up to the next `m`
pub open spec fn shown_from(s: Seq<char>, open: bool) -> Seq<char>
    decreases s.len(),
{
    if s.len() == 0 {
        Seq::empty()
    } else if open {
        shown_from(s.drop_first(), s[0] != 'm')
    } else if s[0] == '\x1B' {
        shown_from(s.drop_first(), true)
    } else {
        seq![s[0]] + shown_from(s.drop_first(), false)
    }
}

/// What a terminal shows of `s`: its text without the style sequences
pub open spec fn shown(s: Seq<char>) -> Seq<char> {
    shown_from(s, false)
}

/// Text without escape characters is shown as it is
proof fn lemma_shown_plain(t: Seq<char>, rest: Seq<char>)
    requires
        plain(t),
    ensures
        shown_from(t + rest, false) == t + shown_from(rest, false),
    decreases t.len(),
{
    if t.len() > 0 {
        assert((t + rest).drop_first() =~= t.drop_first() + rest);
        lemma_shown_plain(t.drop_first(), rest);
        assert(t =~= seq![t[0]] + t.drop_first());
    }
}

/// The inside of an open style sequence, up to the `m` that closes it, is
/// not shown
proof fn lemma_shown_skips(inner: Seq<char>, rest: Seq<char>)
    requires
        inner.len() >= 1,
        inner[inner.len() - 1] == 'm',
        forall|i: int| 0 <= i < inner.len() - 1 ==> inner[i] != 'm',
    ensures
        shown_from(inner + rest, true) == shown_from(rest, false),
    decreases inner.len(),
{
    assert((inner + rest).drop_first() =~= inner.drop_first() + rest);
    if inner.len() > 1 {
        lemma_shown_skips(inner.drop_first(), rest);
    } else {
        assert(inner.drop_first() + rest =~= rest);
    }
}

/// A style sequence is not shown
proof fn lemma_shown_sgr(style: Seq<char>, rest: Seq<char>)
    requires
        sgr(style),
    ensures
        shown_from(style + rest, false) == shown_from(rest, false),
{
    let inner = style.drop_first();
    assert forall|i: int| 0 <= i < inner.len() - 1 implies inner[i] != 'm' by {
        assert(inner[i] == style[i + 1]);
        if i >= 1 {
            assert(sgr_char(style[i + 1]));
        }
    }
    assert((style + rest).drop_first() =~= inner + rest);
    lemma_shown_skips(inner, rest);
}

/// Styling shows the text: whatever style the terminal gets, text without
/// escape characters is shown as it is, label for label
pub proof fn lemma_styled_shows_text(text: Seq<char>, out: Seq<char>)
    requires
        plain(text),
        styled(text, out),
    ensures
        shown(out) == text,
{
    if out == text {
        lemma_shown_plain(text, Seq::empty());
        assert(text + Seq::<char>::empty() =~= text);
        assert(shown_from(Seq::<char>::empty(), false) =~= Seq::<char>::empty());
    } else {
        let style = choose|style: Seq<char>| sgr(style) && out == style + text + reset_seq();
        assert(out =~= style + (text + reset_seq()));
        lemma_shown_sgr(style, text + reset_seq());
        lemma_shown_plain(text, reset_seq());
        assert(sgr(reset_seq()));
        lemma_shown_sgr(reset_seq(), Seq::empty());
        assert(reset_seq() + Seq::<char>::empty() =~= reset_seq());
        assert(shown_from(Seq::<char>::empty(), false) =~= Seq::<char>::empty());
        assert(text + Seq::<char>::empty() =~= text);
    }
}

/// A decimal representation holds digits only
pub proof fn lemma_decimal_plain(n: nat)
    ensures
        plain(decimal(n)),
        decimal(n).len() >= 1,
    decreases n,
{
    if n >= 10 {
        lemma_decimal_plain(n / 10);
    }
}

fn digit_str(d: u64) -> (s: &'static str)
    requires
        d < 10,
    ensures
        s@ == seq![digit(d as nat)],
{
    proof {
        reveal_strlit("0");
        reveal_strlit("1");
        reveal_strlit("2");
        reveal_strlit("3");
        reveal_strlit("4");
        reveal_strlit("5");
        reveal_strlit("6");
        reveal_strlit("7");
        reveal_strlit("8");
        reveal_strlit("9");
    }
    if d == 0 {
        "0"
    } else if d == 1 {
        "1"
    } else if d == 2 {
        "2"
    } else if d == 3 {
        "3"
    } else if d == 4 {
        "4"
    } else if d == 5 {
        "5"
    } else if d == 6 {
        "6"
    } else if d == 7 {
        "7"
    } else if d == 8 {
        "8"
    } else {
        "9"
    }
}

/// The decimal representation of `n`
pub fn to_decimal(n: u64) -> (s: String)
    ensures
        s@ == decimal(n as nat),
    decreases n,
{
    if n < 10 {
        String::from_str(digit_str(n))
    } else {
        let mut s = to_decimal(n / 10);
        s.append(digit_str(n % 10));
        s
    }
}

/// `s` extended by `t`
fn cat(s: String, t: &String) -> (r: String)
    ensures
        r@ == s@ + t@,
{
    let mut s = s;
    s.append(t.as_str());
    s
}

/// `s` extended by the literal `t`
fn cat_str(s: String, t: &str) -> (r: String)
    ensures
        r@ == s@ + t@,
{
    let mut s = s;
    s.append(t);
    s
}

/// The word that stands for `b`
pub open spec fn bool_word(b: bool) -> Seq<char> {
    if b {
        "ok"@
    } else {
        "no"@
    }
}

/// The label of term `term`
pub open spec fn term_label(term: Term) -> Seq<char> {
    " Term "@ + decimal(term as nat) + " "@
}

/// The label of server `id`
pub open spec fn server_label(id: ServerId) -> Seq<char> {
    " Server "@ + decimal(id as nat) + " "@
}

/// The label of a leadership status
pub open spec fn role_label(role: Role) -> Seq<char> {
    match role {
        Role::Leader { .. } => " Leader "@,
        Role::Candidate { .. } => " Candidate "@,
        Role::Follower { .. } => " Follower "@,
    }
}

/// Whether `id` can pick its colour: the id plus 4 fits in a `u32`
pub open spec fn colourable(id: ServerId) -> bool {
    (id as u32) + 4 <= u32::MAX
}

/// " Term {term} ", painted bold black on white
pub fn colour_term(term: Term) -> (s: String)
    ensures
        styled(term_label(term), s@),
{
    let text = cat_str(cat(String::from_str(" Term "), &to_decimal(term)), " ");
    proof {
        reveal_strlit(" Term ");
        reveal_strlit(" ");
        lemma_decimal_plain(term as nat);
        assert(plain(text@));
    }
    paint_label(text.as_str())
}

/// "ok" painted bold green for `true`, "no" painted bold red for `false`
pub fn colour_bool(b: bool) -> (s: String)
    ensures
        styled(bool_word(b), s@),
{
    proof {
        reveal_strlit("ok");
        reveal_strlit("no");
    }
    if b {
        paint_green("ok")
    } else {
        paint_red("no")
    }
}

/// " Server {id} ", painted black on a light colour that the id picks
pub fn colour_server(id: &ServerId) -> (s: String)
    requires
        colourable(*id),
    ensures
        styled(server_label(*id), s@),
{
    let seed = #[verifier::truncate] (*id as u32) + 4;
    let (r, g, b) = light_colour(seed);
    let text = cat_str(cat(String::from_str(" Server "), &to_decimal(*id as u64)), " ");
    proof {
        reveal_strlit(" Server ");
        reveal_strlit(" ");
        lemma_decimal_plain(*id as nat);
        assert(plain(text@));
    }
    paint_on_colour(text.as_str(), r, g, b)
}

/// The line that shows `msg` of server `id` at level `level`: the server's
/// label, a space, the level's indentation and the message dimmed
pub fn log(id: &ServerId, msg: String, level: Level) -> (line: String)
    requires
        colourable(*id),
    ensures
        exists|label: Seq<char>, dimmed: Seq<char>|
            {
                &&& #[trigger] styled(server_label(*id), label)
                &&& #[trigger] dims(msg@, dimmed)
                &&& line@ == label + " "@ + indent_of(level) + dimmed
            },
{
    let label = colour_server(id);
    let dimmed = paint_dimmed(msg.as_str());
    let line = cat(cat_str(cat_str(label, " "), level.indent()), &dimmed);
    proof {
        assert(styled(server_label(*id), label@));
        assert(dims(msg@, dimmed@));
    }
    line
}

/// Where a note below a rendered log points
pub enum AnnotationType {
    /// Below the entry at this index
    Index(usize),
    /// Below the first entries, up to this length
    Length(usize),
    /// Below the entries from the first index up to the second
    Span(usize, usize),
}

/// A note below a rendered log, with its text
pub type Annotation = (AnnotationType, &'static str);

/// `n` spaces
pub open spec fn spaces(n: nat) -> Seq<char> {
    Seq::new(n, |i: int| ' ')
}

/// `n` tildes
pub open spec fn tildes(n: nat) -> Seq<char> {
    Seq::new(n, |i: int| '~')
}

/// `parts` separated by `sep`
pub open spec fn join(parts: Seq<Seq<char>>, sep: Seq<char>) -> Seq<char>
    decreases parts.len(),
{
    if parts.len() == 0 {
        Seq::empty()
    } else if parts.len() == 1 {
        parts[0]
    } else {
        join(parts.drop_last(), sep) + sep + parts.last()
    }
}

/// How an entry of term `term` whose data reads `repr` is shown
pub open spec fn entry_text(term: Term, repr: Seq<char>) -> Seq<char> {
    "("@ + decimal(term as nat) + ") "@ + repr
}

/// Whether a note can be drawn below a log rendered at `offset`
pub open spec fn drawable(a: AnnotationType, offset: nat) -> bool {
    match a {
        AnnotationType::Index(i) => 9 * (i + offset) <= usize::MAX,
        AnnotationType::Length(l) => 9 * (l + offset) <= usize::MAX,
        AnnotationType::Span(start, end) => start <= end && 9 * (offset + start) <= usize::MAX && 9 * (
        end - start) <= usize::MAX,
    }
}

/// How many tildes stand between the two bars below a span of `n` entries:
/// none for a span of fewer than five
pub open spec fn span_fill(n: nat) -> nat {
    if n >= 5 {
        (9 * (n - 4) - 1) as nat
    } else {
        0
    }
}

/// The line that draws note `msg` at `a` below a log rendered at `offset`
pub open spec fn annotation_line(a: AnnotationType, msg: Seq<char>, offset: nat) -> Seq<char> {
    match a {
        AnnotationType::Index(i) => spaces((9 * (i + offset)) as nat) + "    ^ "@ + msg,
        AnnotationType::Length(l) => if l == 0 {
            "|  "@ + msg
        } else {
            tildes((9 * l + offset - 4) as nat) + "|  "@ + msg
        },
        AnnotationType::Span(start, end) => if end == start {
            "|  "@ + msg
        } else {
            spaces((9 * (offset + start)) as nat) + "|"@ + tildes(span_fill((end - start) as nat)) + "|  "@ + msg
        },
    }
}

/// The rendering of `entries` at `offset` with the notes `annotations`,
/// where the data of the i-th entry reads `reprs[i]`
pub open spec fn rendering<T>(entries: Seq<LogEntry<T>>, annotations: Seq<Annotation>, offset: nat, reprs: Seq<Seq<char>>) -> Seq<char> {
    let texts = Seq::new(entries.len(), |i: int| entry_text(entries[i].term, reprs[i]));
    let notes = Seq::new(annotations.len(), |j: int| annotation_line(annotations[j].0, annotations[j].1@, offset));
    "\n"@ + spaces(9 * offset) + join(texts, " -> "@) + (if annotations.len() > 0 { "\n"@ } else { ""@ }) + join(notes, "\n"@)
}

/// `out` renders `entries` at `offset` with the notes `annotations`, each
/// entry's data in some text
pub open spec fn rendered<T>(entries: Seq<LogEntry<T>>, annotations: Seq<Annotation>, offset: nat, out: Seq<char>) -> bool {
    exists|reprs: Seq<Seq<char>>|
        reprs.len() == entries.len() && out == #[trigger] rendering(entries, annotations, offset, reprs)
}

/// No notes at all
pub open spec fn no_notes() -> Seq<Annotation> {
    Seq::empty()
}

/// A single note
pub open spec fn one_note(a: AnnotationType, msg: &'static str) -> Seq<Annotation> {
    seq![(a, msg)]
}

/// Two notes, in order
pub open spec fn two_notes(a: AnnotationType, m: &'static str, b: AnnotationType, n: &'static str) -> Seq<Annotation> {
    seq![(a, m), (b, n)]
}

/// The `{:?}` rendering of `x`, through its `std::fmt::Debug` implementation.
/// Nothing is stated of it: the implementation belongs to the data's type.
#[verifier::external_body]
fn debug_text<T: std::fmt::Debug>(x: &T) -> String {
    format!("{:?}", x)
}

/// `s` extended by `n` copies of the one-character `c`
fn push_repeated(s: &mut String, c: &str, n: usize)
    requires
        c@.len() == 1,
    ensures
        final(s)@ == old(s)@ + Seq::new(n as nat, |i: int| c@[0]),
{
    let mut k: usize = 0;
    while k < n
        invariant
            k <= n,
            c@.len() == 1,
            s@ == old(s)@ + Seq::new(k as nat, |i: int| c@[0]),
        decreases n - k,
    {
        s.append(c);
        k = k + 1;
        assert(s@ =~= old(s)@ + Seq::new(k as nat, |i: int| c@[0]));
    }
}

/// A run of `n` spaces
fn spaces_string(n: usize) -> (s: String)
    ensures
        s@ == spaces(n as nat),
{
    let mut s = String::new();
    proof {
        reveal_strlit(" ");
    }
    push_repeated(&mut s, " ", n);
    assert(s@ =~= spaces(n as nat));
    s
}

/// A run of `n` tildes
fn tildes_string(n: usize) -> (s: String)
    ensures
        s@ == tildes(n as nat),
{
    let mut s = String::new();
    proof {
        reveal_strlit("~");
    }
    push_repeated(&mut s, "~", n);
    assert(s@ =~= tildes(n as nat));
    s
}

/// The line that draws one note below a log rendered at `log_offset`
fn annotation_text(a: &AnnotationType, msg: &str, log_offset: usize) -> (s: String)
    requires
        drawable(*a, log_offset as nat),
    ensures
        s@ == annotation_line(*a, msg@, log_offset as nat),
{
    match a {
        AnnotationType::Index(i) => {
            let mut s = spaces_string(9 * (*i + log_offset));
            s.append("    ^ ");
            s.append(msg);
            s
        },
        AnnotationType::Length(length) => {
            if *length == 0 {
                let mut s = String::from_str("|  ");
                s.append(msg);
                s
            } else {
                let mut s = tildes_string(9 * *length + log_offset - 4);
                s.append("|  ");
                s.append(msg);
                s
            }
        },
        AnnotationType::Span(start, end) => {
            if *end - *start == 0 {
                let mut s = String::from_str("|  ");
                s.append(msg);
                s
            } else {
                let mut s = spaces_string(9 * (log_offset + *start));
                s.append("|");
                let fill = if *end - *start >= 5 {
                    9 * (*end - *start - 4) - 1
                } else {
                    0
                };
                let t = tildes_string(fill);
                s.append(t.as_str());
                s.append("|  ");
                s.append(msg);
                s
            }
        },
    }
}

/// Joining one more part
proof fn lemma_join_push(parts: Seq<Seq<char>>, sep: Seq<char>, i: int)
    requires
        0 <= i < parts.len(),
    ensures
        join(parts.take(i + 1), sep) == if i == 0 {
            parts[0]
        } else {
            join(parts.take(i), sep) + sep + parts[i]
        },
{
    assert(parts.take(i + 1).drop_last() =~= parts.take(i));
}

/// Renders `entries` on one line, shifted right by `log_offset` entries,
/// followed by one line for each note of `annotations`
pub fn debug_log<T: std::fmt::Debug>(entries: &Vec<LogEntry<T>>, annotations: Vec<Annotation>, log_offset: LogIndex) -> (s: String)
    requires
        9 * log_offset <= usize::MAX,
        forall|j: int| 0 <= j < annotations@.len() ==> drawable(#[trigger] annotations@[j].0, log_offset as nat),
    ensures
        rendered(entries@, annotations@, log_offset as nat, s@),
{
    let ghost texts: Seq<Seq<char>> = Seq::empty();
    let ghost reprs: Seq<Seq<char>> = Seq::empty();
    let mut line = spaces_string(9 * log_offset);
    let ghost start = line@;
    let mut i: usize = 0;
    while i < entries.len()
        invariant
            i <= entries.len(),
            reprs.len() == i,
            texts == Seq::new(i as nat, |k: int| entry_text(entries@[k].term, reprs[k])),
            line@ == start + join(texts, " -> "@),
        decreases entries.len() - i,
    {
        if i > 0 {
            line.append(" -> ");
        }
        let repr = debug_text(&entries[i].data);
        line.append("(");
        line.append(to_decimal(entries[i].term).as_str());
        line.append(") ");
        line.append(repr.as_str());
        proof {
            let new_reprs = reprs.push(repr@);
            let new_texts = Seq::new((i + 1) as nat, |k: int| entry_text(entries@[k].term, new_reprs[k]));
            assert(new_texts.take(i as int) =~= texts);
            assert(new_texts.take(i + 1) =~= new_texts);
            lemma_join_push(new_texts, " -> "@, i as int);
            reprs = new_reprs;
            texts = new_texts;
        }
        i = i + 1;
    }
    let ghost notes: Seq<Seq<char>> = Seq::empty();
    let mut lines = String::new();
    let mut j: usize = 0;
    while j < annotations.len()
        invariant
            j <= annotations.len(),
            forall|k: int| 0 <= k < annotations@.len() ==> drawable(#[trigger] annotations@[k].0, log_offset as nat),
            notes == Seq::new(j as nat, |k: int| annotation_line(annotations@[k].0, annotations@[k].1@, log_offset as nat)),
            lines@ == join(notes, "\n"@),
        decreases annotations.len() - j,
    {
        if j > 0 {
            lines.append("\n");
        }
        let note = annotation_text(&annotations[j].0, annotations[j].1, log_offset);
        lines.append(note.as_str());
        proof {
            let new_notes = Seq::new((j + 1) as nat, |k: int| annotation_line(annotations@[k].0, annotations@[k].1@, log_offset as nat));
            assert(new_notes.take(j as int) =~= notes);
            assert(new_notes.take(j + 1) =~= new_notes);
            lemma_join_push(new_notes, "\n"@, j as int);
            notes = new_notes;
        }
        j = j + 1;
    }
    let mut s = String::from_str("\n");
    s.append(line.as_str());
    if annotations.len() > 0 {
        s.append("\n");
    }
    s.append(lines.as_str());
    proof {
        reveal_strlit("");
        assert(texts =~= Seq::new(entries@.len(), |k: int| entry_text(entries@[k].term, reprs[k])));
        assert(notes =~= Seq::new(annotations@.len(), |k: int| annotation_line(annotations@[k].0, annotations@[k].1@, log_offset as nat)));
        assert(s@ =~= rendering(entries@, annotations@, log_offset as nat, reprs));
    }
    s
}

/// Builder of the messages that describe what a server does
pub struct Logger {}

/// What a message that reports a verdict `b` shows of it
pub open spec fn verdict(b: bool, shown: Seq<char>) -> bool {
    styled(bool_word(b), shown)
}

/// Whether `a` reaches `b`
pub open spec fn at_least(a: nat, b: nat) -> bool {
    a >= b
}

/// Whether two terms are the same
pub open spec fn same_term(a: Term, b: Term) -> bool {
    a == b
}

/// Whether both hold
pub open spec fn both(a: bool, b: bool) -> bool {
    a && b
}

impl Logger {
    /// Message about counting the votes received so far
    pub fn total_vote_count(id: &ServerId, total: usize, quorum: usize) -> (msg: String)
        ensures
            msg@ == "total vote count: "@ + decimal(total as nat) + " out of quorum of "@ + decimal(
                quorum as nat,
            ),
    {
        let mut msg = String::from_str("total vote count: ");
        msg.append(to_decimal(total as u64).as_str());
        msg.append(" out of quorum of ");
        msg.append(to_decimal(quorum as u64).as_str());
        msg
    }

    /// Message about a log truncated after a conflict with the leader's
    pub fn log_term_conflict<T, S>(log_ref: &Log<T, S>) -> (msg: String)
        ensures
            msg@ == "term conflict detected! truncating our log to length="@ + decimal(
                log_ref.entries.len() as nat,
            ) + " to match leader"@,
    {
        let mut msg = String::from_str("term conflict detected! truncating our log to length=");
        msg.append(to_decimal(log_ref.entries.len() as u64).as_str());
        msg.append(" to match leader");
        msg
    }

    /// Message about delivering the next entry to the state machine
    pub fn log_deliver_recv<T, S>(log_ref: &Log<T, S>) -> (msg: String)
        ensures
            msg@ == "[deliver_msg] at applied_idx="@ + decimal(log_ref.applied_len as nat)
                + " out of entries.len()="@ + decimal(log_ref.entries.len() as nat),
    {
        let mut msg = String::from_str("[deliver_msg] at applied_idx=");
        msg.append(to_decimal(log_ref.applied_len as u64).as_str());
        msg.append(" out of entries.len()=");
        msg.append(to_decimal(log_ref.entries.len() as u64).as_str());
        msg
    }

    /// Message about whether a quorum acknowledged the entry at `commit_len`
    pub fn commit_entry(id: &ServerId, commit_len: LogIndex, acks: usize, quorum_size: usize) -> (msg: String)
        ensures
            exists|v: Seq<char>|
                #[trigger] verdict(at_least(acks as nat, quorum_size as nat), v) && msg@ == "commit entry at index ("@ + decimal(
                    commit_len as nat,
                ) + "): "@ + v + " because\n1) total of "@ + decimal(acks as nat)
                    + " acks for that index >= quorum size ("@ + decimal(quorum_size as nat) + ")"@,
    {
        let v = colour_bool(acks >= quorum_size);
        let mut msg = String::from_str("commit entry at index (");
        msg.append(to_decimal(commit_len as u64).as_str());
        msg.append("): ");
        msg.append(v.as_str());
        msg.append(" because\n1) total of ");
        msg.append(to_decimal(acks as u64).as_str());
        msg.append(" acks for that index >= quorum size (");
        msg.append(to_decimal(quorum_size as u64).as_str());
        msg.append(")");
        proof {
            assert(verdict(at_least(acks as nat, quorum_size as nat), v@));
        }
        msg
    }

    /// Message about an AppendRequest that reached our log
    pub fn append_entries_recv<T: std::fmt::Debug, S>(
        log_ref: &Log<T, S>,
        prefix_idx: LogIndex,
        leader_commit_len: LogIndex,
        their_entries: &Vec<LogEntry<T>>,
    ) -> (msg: String)
        requires
            9 * prefix_idx <= usize::MAX,
        ensures
            their_entries@.len() > 0 ==> exists|ours: Seq<char>, theirs: Seq<char>|
                #![trigger rendered(log_ref.entries@, no_notes(), 0, ours), rendered(their_entries@, no_notes(), prefix_idx as nat, theirs)]
                {
                    &&& rendered(log_ref.entries@, no_notes(), 0, ours)
                    &&& rendered(their_entries@, no_notes(), prefix_idx as nat, theirs)
                    &&& msg@ == "[append_entries] received with prefix_idx="@ + decimal(prefix_idx as nat)
                        + ", leader_commit_len="@ + decimal(leader_commit_len as nat) + "\ncurrent state: "@
                        + ours + "\nentries to append:"@ + theirs
                },
            their_entries@.len() == 0 ==> msg@ == "[append_entries] received heartbeat prefix_idx="@
                + decimal(prefix_idx as nat),
    {
        if their_entries.len() > 0 {
            let ours = debug_log(&log_ref.entries, Vec::new(), 0);
            let theirs = debug_log(their_entries, Vec::new(), prefix_idx);
            let mut msg = String::from_str("[append_entries] received with prefix_idx=");
            msg.append(to_decimal(prefix_idx as u64).as_str());
            msg.append(", leader_commit_len=");
            msg.append(to_decimal(leader_commit_len as u64).as_str());
            msg.append("\ncurrent state: ");
            msg.append(ours.as_str());
            msg.append("\nentries to append:");
            msg.append(theirs.as_str());
            proof {
                assert(rendered(log_ref.entries@, no_notes(), 0, ours@));
                assert(rendered(their_entries@, no_notes(), prefix_idx as nat, theirs@));
            }
            msg
        } else {
            let mut msg = String::from_str("[append_entries] received heartbeat prefix_idx=");
            msg.append(to_decimal(prefix_idx as u64).as_str());
            msg
        }
    }

    /// Message about the entries we compare with the leader's to find a conflict
    pub fn log_potential_conflict<T: std::fmt::Debug, S>(
        log_ref: &Log<T, S>,
        their_entries: &Vec<LogEntry<T>>,
        prefix_idx: LogIndex,
        rollback_to: LogIndex,
    ) -> (msg: String)
        requires
            prefix_idx <= rollback_to,
            9 * (rollback_to + prefix_idx) <= usize::MAX,
        ensures
            exists|ours: Seq<char>, theirs: Seq<char>|
                #![trigger rendered(log_ref.entries@, one_note(AnnotationType::Index(rollback_to), "term of this entry"), 0, ours), rendered(their_entries@, one_note(AnnotationType::Index((rollback_to - prefix_idx) as usize), "term of this entry leader is trying to add"), prefix_idx as nat, theirs)]
                {
                    &&& rendered(log_ref.entries@, one_note(AnnotationType::Index(rollback_to), "term of this entry"), 0, ours)
                    &&& rendered(their_entries@, one_note(AnnotationType::Index((rollback_to - prefix_idx) as usize), "term of this entry leader is trying to add"), prefix_idx as nat, theirs)
                    &&& msg@ == "potential log conflict! compare our terms\nour log: "@ + ours
                        + "\nentries to append (attempting to insert at idx="@ + decimal(prefix_idx as nat) + "): "@ + theirs
                },
    {
        let our_notes = vec![(AnnotationType::Index(rollback_to), "term of this entry")];
        assert(our_notes@ =~= one_note(AnnotationType::Index(rollback_to), "term of this entry"));
        let ours = debug_log(&log_ref.entries, our_notes, 0);
        let their_idx = rollback_to - prefix_idx;
        let their_notes = vec![(AnnotationType::Index(their_idx), "term of this entry leader is trying to add")];
        assert(their_notes@ =~= one_note(AnnotationType::Index(their_idx), "term of this entry leader is trying to add"));
        let theirs = debug_log(their_entries, their_notes, prefix_idx);
        let mut msg = String::from_str("potential log conflict! compare our terms\nour log: ");
        msg.append(ours.as_str());
        msg.append("\nentries to append (attempting to insert at idx=");
        msg.append(to_decimal(prefix_idx as u64).as_str());
        msg.append("): ");
        msg.append(theirs.as_str());
        proof {
            assert(rendered(log_ref.entries@, one_note(AnnotationType::Index(rollback_to), "term of this entry"), 0, ours@));
        }
        msg
    }

    /// Message about the entries we added to our log
    pub fn log_append<T: std::fmt::Debug, S>(log_ref: &Log<T, S>, start: LogIndex) -> (msg: String)
        ensures
            exists|ours: Seq<char>|
                #[trigger] rendered(log_ref.entries@, no_notes(), 0, ours) && msg@
                    == "appended all request entries starting from idx="@ + decimal(start as nat)
                    + ", log now looks like: "@ + ours,
    {
        let ours = debug_log(&log_ref.entries, Vec::new(), 0);
        let mut msg = String::from_str("appended all request entries starting from idx=");
        msg.append(to_decimal(start as u64).as_str());
        msg.append(", log now looks like: ");
        msg.append(ours.as_str());
        proof {
            assert(rendered(log_ref.entries@, no_notes(), 0, ours@));
        }
        msg
    }

    /// Message about the entries we handed to the state machine
    pub fn log_apply<T: std::fmt::Debug, S>(log_ref: &Log<T, S>, leader_commit_len: LogIndex) -> (msg: String)
        requires
            9 * log_ref.committed_len <= usize::MAX,
            9 * leader_commit_len <= usize::MAX,
        ensures
            exists|ours: Seq<char>|
                #[trigger] rendered(
                    log_ref.entries@,
                    two_notes(
                        AnnotationType::Length(log_ref.committed_len),
                        "used to be commited up to here",
                        AnnotationType::Length(leader_commit_len),
                        "now commited up to here",
                    ),
                    0,
                    ours,
                ) && msg@ == "applied more messages to state machine: "@ + ours,
    {
        let notes = vec![
            (AnnotationType::Length(log_ref.committed_len), "used to be commited up to here"),
            (AnnotationType::Length(leader_commit_len), "now commited up to here"),
        ];
        assert(notes@ =~= two_notes(
            AnnotationType::Length(log_ref.committed_len),
            "used to be commited up to here",
            AnnotationType::Length(leader_commit_len),
            "now commited up to here",
        ));
        let ours = debug_log(&log_ref.entries, notes, 0);
        let mut msg = String::from_str("applied more messages to state machine: ");
        msg.append(ours.as_str());
        msg
    }

    /// Message that shows how much of our log was applied
    pub fn log_deliver_apply<T: std::fmt::Debug, S>(log_ref: &Log<T, S>) -> (msg: String)
        requires
            9 * log_ref.applied_len <= usize::MAX,
        ensures
            rendered(log_ref.entries@, one_note(AnnotationType::Length(log_ref.applied_len), "applied up to here"), 0, msg@),
    {
        let notes = vec![(AnnotationType::Length(log_ref.applied_len), "applied up to here")];
        assert(notes@ =~= one_note(AnnotationType::Length(log_ref.applied_len), "applied up to here"));
        debug_log(&log_ref.entries, notes, 0)
    }
    /// Message about whether a leader's term matches ours
    pub fn check_matching_term<T>(id: &ServerId, req: &AppendRequest<T>, current_term: Term) -> (msg: String)
        ensures
            exists|v: Seq<char>|
                #[trigger] verdict(same_term(req.leader_term, current_term), v) && msg@
                    == "checking pre-req, does our term match the leader's term: "@ + v,
    {
        let v = colour_bool(req.leader_term == current_term);
        let mut msg = String::from_str("checking pre-req, does our term match the leader's term: ");
        msg.append(v.as_str());
        proof {
            assert(verdict(same_term(req.leader_term, current_term), v@));
        }
        msg
    }

    /// Message about whether a vote response counts
    pub fn vote_count(id: &ServerId, res: &VoteResponse, up_to_date: bool) -> (msg: String)
        ensures
            exists|v: Seq<char>, u: Seq<char>, g: Seq<char>|
                #![trigger verdict(both(up_to_date, res.vote_granted), v), verdict(up_to_date, u), verdict(res.vote_granted, g)]
                {
                    &&& verdict(both(up_to_date, res.vote_granted), v)
                    &&& verdict(up_to_date, u)
                    &&& verdict(res.vote_granted, g)
                    &&& msg@ == "counting vote: "@ + v + " because\n1) follower is up to date: "@ + u
                        + "\n2) they granted the vote: "@ + g
                },
    {
        let v = colour_bool(up_to_date && res.vote_granted);
        let u = colour_bool(up_to_date);
        let g = colour_bool(res.vote_granted);
        let mut msg = String::from_str("counting vote: ");
        msg.append(v.as_str());
        msg.append(" because\n1) follower is up to date: ");
        msg.append(u.as_str());
        msg.append("\n2) they granted the vote: ");
        msg.append(g.as_str());
        proof {
            assert(verdict(both(up_to_date, res.vote_granted), v@));
            assert(verdict(up_to_date, u@));
            assert(verdict(res.vote_granted, g@));
        }
        msg
    }

    /// Messages about whether an append response is valid and what follows
    /// from it for the follower's replication state
    pub fn process_append_response(id: &ServerId, res: &AppendResponse, follower_state: &NodeReplicationState) -> (msgs: (String, String))
        requires
            !(res.ok && res.ack_idx >= follower_state.acked_up_to) ==> follower_state.sent_up_to > 0,
        ensures
            exists|v: Seq<char>, o: Seq<char>, m: Seq<char>|
                #![trigger verdict(both(res.ok, at_least(res.ack_idx as nat, follower_state.acked_up_to as nat)), v), verdict(res.ok, o), verdict(at_least(res.ack_idx as nat, follower_state.acked_up_to as nat), m)]
                {
                    &&& verdict(both(res.ok, at_least(res.ack_idx as nat, follower_state.acked_up_to as nat)), v)
                    &&& verdict(res.ok, o)
                    &&& verdict(at_least(res.ack_idx as nat, follower_state.acked_up_to as nat), m)
                    &&& msgs.0@ == "valid response: "@ + v + " because\n1) response indicated success: "@ + o
                        + "\n2) the index they acked up to (new="@ + decimal(res.ack_idx as nat)
                        + ") actually moved forward (old="@ + decimal(follower_state.acked_up_to as nat) + "): "@
                        + m
                },
            msgs.1@ == if res.ok && res.ack_idx >= follower_state.acked_up_to {
                "success! bumping sent_up_to from "@ + decimal(follower_state.sent_up_to as nat) + " -> "@
                    + decimal(res.ack_idx as nat) + " and acked_up_to from "@ + decimal(
                    follower_state.acked_up_to as nat,
                ) + " -> "@ + decimal(res.ack_idx as nat)
            } else {
                "error, decrement sent_up_to from "@ + decimal(follower_state.sent_up_to as nat) + " -> "@
                    + decimal((follower_state.sent_up_to - 1) as nat) + " and try again"@
            },
    {
        let moved = res.ack_idx >= follower_state.acked_up_to;
        let valid = res.ok && moved;
        let v = colour_bool(valid);
        let o = colour_bool(res.ok);
        let m = colour_bool(moved);
        let mut first = String::from_str("valid response: ");
        first.append(v.as_str());
        first.append(" because\n1) response indicated success: ");
        first.append(o.as_str());
        first.append("\n2) the index they acked up to (new=");
        first.append(to_decimal(res.ack_idx as u64).as_str());
        first.append(") actually moved forward (old=");
        first.append(to_decimal(follower_state.acked_up_to as u64).as_str());
        first.append("): ");
        first.append(m.as_str());
        let second = if valid {
            let mut msg = String::from_str("success! bumping sent_up_to from ");
            msg.append(to_decimal(follower_state.sent_up_to as u64).as_str());
            msg.append(" -> ");
            msg.append(to_decimal(res.ack_idx as u64).as_str());
            msg.append(" and acked_up_to from ");
            msg.append(to_decimal(follower_state.acked_up_to as u64).as_str());
            msg.append(" -> ");
            msg.append(to_decimal(res.ack_idx as u64).as_str());
            msg
        } else {
            let mut msg = String::from_str("error, decrement sent_up_to from ");
            msg.append(to_decimal(follower_state.sent_up_to as u64).as_str());
            msg.append(" -> ");
            msg.append(to_decimal((follower_state.sent_up_to - 1) as u64).as_str());
            msg.append(" and try again");
            msg
        };
        proof {
            assert(verdict(both(res.ok, at_least(res.ack_idx as nat, follower_state.acked_up_to as nat)), v@));
            assert(verdict(res.ok, o@));
            assert(verdict(at_least(res.ack_idx as nat, follower_state.acked_up_to as nat), m@));
        }
        (first, second)
    }
}

/// The server a message goes to, if it goes to one, can pick its colour
pub open spec fn addressable<T>(msg: SendableMessage<T>) -> bool {
    msg.0 matches Target::Single(to) ==> colourable(to)
}

/// The lines that show the messages `msgs` going out: each names the RPC and
/// the server it goes to, or all servers
pub open spec fn outgoing_line<T>(msg: SendableMessage<T>, line: Seq<char>) -> bool {
    match msg.0 {
        Target::Single(to) => exists|l: Seq<char>| #[trigger]
            styled(server_label(to), l) && line == rpc_name(&msg.1) + " -> "@ + l,
        Target::Broadcast => exists|l: Seq<char>| #[trigger]
            styled(" All servers "@, l) && line == rpc_name(&msg.1) + " -> "@ + l,
    }
}

impl Logger {
    /// Message about the leadership status a server is now in
    pub fn state_update<T: Copy, S>(raft_ref: &RaftServer<T, S>) -> (msg: String)
        ensures
            exists|l: Seq<char>| #[trigger] styled(role_label(raft_ref@.role), l) && msg@ == "is now "@ + l,
    {
        proof {
            reveal_strlit(" Leader ");
            reveal_strlit(" Candidate ");
            reveal_strlit(" Follower ");
        }
        let label = if raft_ref.is_leader() {
            paint_on_blue(" Leader ")
        } else if raft_ref.is_candidate() {
            paint_on_yellow(" Candidate ")
        } else {
            paint_on_grey(" Follower ")
        };
        let mut msg = String::from_str("is now ");
        msg.append(label.as_str());
        proof {
            assert(styled(role_label(raft_ref@.role), label@));
        }
        msg
    }

    /// Messages about a server starting up: that it does, and its status
    pub fn server_init<T: Copy, S>(raft_ref: &RaftServer<T, S>) -> (msgs: (String, String))
        ensures
            msgs.0@ == "initializing server"@,
            exists|l: Seq<char>| #[trigger] styled(role_label(raft_ref@.role), l) && msgs.1@ == "is now "@ + l,
    {
        (String::from_str("initializing server"), Logger::state_update(raft_ref))
    }

    /// Message about a leader sending heartbeats
    pub fn send_heartbeat<T: Copy, S>(raft_ref: &RaftServer<T, S>) -> (msg: String)
        ensures
            msg@ == "sending heartbeat to all followers"@,
    {
        String::from_str("sending heartbeat to all followers")
    }

    /// Message about a server starting an election in its new term
    pub fn election_timer_expired<T: Copy, S>(raft_ref: &RaftServer<T, S>) -> (msg: String)
        ensures
            exists|l: Seq<char>| #[trigger] styled(term_label(raft_ref@.current_term), l)
                && msg@ == "election timer expired, bumped to "@ + l + " and started election"@,
    {
        let label = colour_term(raft_ref.term());
        let mut msg = String::from_str("election timer expired, bumped to ");
        msg.append(label.as_str());
        msg.append(" and started election");
        msg
    }

    /// Message about a server adopting a newer term
    pub fn bumping_term<T: Copy, S>(raft_ref: &RaftServer<T, S>, new_term: Term) -> (msg: String)
        ensures
            exists|ours: Seq<char>, theirs: Seq<char>|
                #![trigger styled(term_label(raft_ref@.current_term), ours), styled(term_label(new_term), theirs)]
                {
                    &&& styled(term_label(raft_ref@.current_term), ours)
                    &&& styled(term_label(new_term), theirs)
                    &&& msg@ == "bumping our term "@ + ours + " to match candidate/leader term "@ + theirs
                },
    {
        let ours = colour_term(raft_ref.term());
        let theirs = colour_term(new_term);
        let mut msg = String::from_str("bumping our term ");
        msg.append(ours.as_str());
        msg.append(" to match candidate/leader term ");
        msg.append(theirs.as_str());
        proof {
            assert(styled(term_label(raft_ref@.current_term), ours@));
        }
        msg
    }

    /// Message about an RPC arriving
    pub fn receive_rpc<T: Copy, S>(raft_ref: &RaftServer<T, S>, rpc: &RPC<T>) -> (msg: String)
        ensures
            msg@ == "<- "@ + rpc_name(rpc),
    {
        let mut msg = String::from_str("<- ");
        msg.append(rpc.to_string().as_str());
        msg
    }

    /// Message about a client asking to add an entry
    pub fn client_request<T: Copy, S>(raft_ref: &RaftServer<T, S>) -> (msg: String)
        ensures
            msg@ == "received client_request to add an entry"@,
    {
        String::from_str("received client_request to add an entry")
    }

    /// Message about a request for our vote
    pub fn rpc_vote_request<T: Copy, S>(raft_ref: &RaftServer<T, S>, req: &VoteRequest) -> (msg: String)
        requires
            colourable(req.candidate_id),
        ensures
            exists|l: Seq<char>| #[trigger] styled(server_label(req.candidate_id), l)
                && msg@ == "[rpc_vote_request] from "@ + l,
    {
        let label = colour_server(&req.candidate_id);
        let mut msg = String::from_str("[rpc_vote_request] from ");
        msg.append(label.as_str());
        msg
    }

    /// Message about whether we vote for a candidate, and why
    pub fn rpc_vote_result<T: Copy, S>(raft_ref: &RaftServer<T, S>, log_ok: bool, up_to_date: bool, havent_voted: bool) -> (msg: String)
        ensures
            exists|v: Seq<char>, a: Seq<char>, b: Seq<char>, c: Seq<char>|
                #![trigger verdict(both(both(log_ok, up_to_date), havent_voted), v), verdict(log_ok, a), verdict(up_to_date, b), verdict(havent_voted, c)]
                {
                    &&& verdict(both(both(log_ok, up_to_date), havent_voted), v)
                    &&& verdict(log_ok, a)
                    &&& verdict(up_to_date, b)
                    &&& verdict(havent_voted, c)
                    &&& msg@ == "vote: "@ + v + " because\n1) their log has a more recent term or is longer: "@ + a
                        + "\n2) their term is up to date: "@ + b
                        + "\n3) we haven't voted this election cycle or we already voted for them: "@ + c
                },
    {
        let v = colour_bool(log_ok && up_to_date && havent_voted);
        let a = colour_bool(log_ok);
        let b = colour_bool(up_to_date);
        let c = colour_bool(havent_voted);
        let mut msg = String::from_str("vote: ");
        msg.append(v.as_str());
        msg.append(" because\n1) their log has a more recent term or is longer: ");
        msg.append(a.as_str());
        msg.append("\n2) their term is up to date: ");
        msg.append(b.as_str());
        msg.append("\n3) we haven't voted this election cycle or we already voted for them: ");
        msg.append(c.as_str());
        proof {
            assert(verdict(both(both(log_ok, up_to_date), havent_voted), v@));
            assert(verdict(log_ok, a@));
            assert(verdict(up_to_date, b@));
            assert(verdict(havent_voted, c@));
        }
        msg
    }

    /// Message about a vote that came back
    pub fn rpc_vote_resp<T: Copy, S>(raft_ref: &RaftServer<T, S>, res: &VoteResponse) -> (msg: String)
        requires
            colourable(res.votee_id),
        ensures
            exists|l: Seq<char>, v: Seq<char>|
                #![trigger styled(server_label(res.votee_id), l), verdict(res.vote_granted, v)]
                {
                    &&& styled(server_label(res.votee_id), l)
                    &&& verdict(res.vote_granted, v)
                    &&& msg@ == "[rpc_vote_response] from "@ + l + " voting "@ + v
                },
    {
        let label = colour_server(&res.votee_id);
        let v = colour_bool(res.vote_granted);
        let mut msg = String::from_str("[rpc_vote_response] from ");
        msg.append(label.as_str());
        msg.append(" voting ");
        msg.append(v.as_str());
        proof {
            assert(styled(server_label(res.votee_id), label@));
            assert(verdict(res.vote_granted, v@));
        }
        msg
    }

    /// Message about a new leader starting to track a follower
    pub fn added_follower<T: Copy, S>(raft_ref: &RaftServer<T, S>, votee: &ServerId) -> (msg: String)
        requires
            colourable(*votee),
        ensures
            exists|l: Seq<char>| #[trigger] styled(server_label(*votee), l)
                && msg@ == "added "@ + l + " to list of followers"@,
    {
        let label = colour_server(votee);
        let mut msg = String::from_str("added ");
        msg.append(label.as_str());
        msg.append(" to list of followers");
        msg
    }

    /// Message about a request to append entries to our log
    pub fn rpc_append_request<T: Copy, S>(raft_ref: &RaftServer<T, S>, req: &AppendRequest<T>) -> (msg: String)
        requires
            colourable(req.leader_id),
        ensures
            exists|l: Seq<char>| #[trigger] styled(server_label(req.leader_id), l)
                && msg@ == "[rpc_append_request] from "@ + l,
    {
        let label = colour_server(&req.leader_id);
        let mut msg = String::from_str("[rpc_append_request] from ");
        msg.append(label.as_str());
        msg
    }

    /// Message about an answer to our append request
    pub fn append_response<T: Copy, S>(raft_ref: &RaftServer<T, S>, res: &AppendResponse) -> (msg: String)
        requires
            colourable(res.follower_id),
        ensures
            exists|l: Seq<char>| #[trigger] styled(server_label(res.follower_id), l)
                && msg@ == "[rpc_append_response] from "@ + l,
    {
        let label = colour_server(&res.follower_id);
        let mut msg = String::from_str("[rpc_append_response] from ");
        msg.append(label.as_str());
        msg
    }

    /// Messages about a leader or candidate comparing its term with a
    /// supposed leader's, and what it does about it
    pub fn append_conflict_check<T: Copy, S>(raft_ref: &RaftServer<T, S>, req: &AppendRequest<T>) -> (msgs: (String, String))
        ensures
            exists|ours: Seq<char>, theirs: Seq<char>|
                #![trigger styled(term_label(raft_ref@.current_term), ours), styled(term_label(req.leader_term), theirs)]
                {
                    &&& styled(term_label(raft_ref@.current_term), ours)
                    &&& styled(term_label(req.leader_term), theirs)
                    &&& msgs.0@ == "comparing our term "@ + ours + " to supposed leader "@ + theirs
                },
            msgs.1@ == if req.leader_term == raft_ref@.current_term {
                "term matches, reset to follower, update term and retry"@
            } else {
                "outdated, ignoring"@
            },
    {
        let ours = colour_term(raft_ref.term());
        let theirs = colour_term(req.leader_term);
        let mut first = String::from_str("comparing our term ");
        first.append(ours.as_str());
        first.append(" to supposed leader ");
        first.append(theirs.as_str());
        let second = if req.leader_term == raft_ref.term() {
            String::from_str("term matches, reset to follower, update term and retry")
        } else {
            String::from_str("outdated, ignoring")
        };
        proof {
            assert(styled(term_label(raft_ref@.current_term), ours@));
        }
        (first, second)
    }

    /// Message about whether we append the entries of a request, and why
    pub fn append_entries<T: Copy, S>(
        raft_ref: &RaftServer<T, S>,
        prefix_ok: bool,
        last_log_entry_matches_terms: bool,
        prefix_len: usize,
    ) -> (msg: String)
        ensures
            exists|v: Seq<char>, a: Seq<char>, b: Seq<char>|
                #![trigger verdict(both(prefix_ok, last_log_entry_matches_terms), v), verdict(prefix_ok, a), verdict(last_log_entry_matches_terms, b)]
                {
                    &&& verdict(both(prefix_ok, last_log_entry_matches_terms), v)
                    &&& verdict(prefix_ok, a)
                    &&& verdict(last_log_entry_matches_terms, b)
                    &&& msg@ == "append entries: "@ + v + " because\n1) the index they want to insert entries at ("@
                        + decimal(prefix_len as nat) + ") <= our log length ("@ + decimal(
                        raft_ref@.log.entries.len(),
                    ) + "): "@ + a + "\n2) last log entry before new entries matches terms: "@ + b
                },
    {
        let v = colour_bool(prefix_ok && last_log_entry_matches_terms);
        let a = colour_bool(prefix_ok);
        let b = colour_bool(last_log_entry_matches_terms);
        let mut msg = String::from_str("append entries: ");
        msg.append(v.as_str());
        msg.append(" because\n1) the index they want to insert entries at (");
        msg.append(to_decimal(prefix_len as u64).as_str());
        msg.append(") <= our log length (");
        msg.append(to_decimal(raft_ref.log_len() as u64).as_str());
        msg.append("): ");
        msg.append(a.as_str());
        msg.append("\n2) last log entry before new entries matches terms: ");
        msg.append(b.as_str());
        proof {
            assert(verdict(both(prefix_ok, last_log_entry_matches_terms), v@));
            assert(verdict(prefix_ok, a@));
            assert(verdict(last_log_entry_matches_terms, b@));
        }
        msg
    }

    /// One line for each message going out, naming the RPC and where it goes
    pub fn outgoing_rpcs<T: Copy, S>(raft_ref: &RaftServer<T, S>, msgs: &Vec<SendableMessage<T>>) -> (lines: Vec<String>)
        requires
            forall|i: int| 0 <= i < msgs@.len() ==> addressable(#[trigger] msgs@[i]),
        ensures
            lines@.len() == msgs@.len(),
            forall|i: int| 0 <= i < msgs@.len() ==> outgoing_line(msgs@[i], #[trigger] lines@[i]@),
    {
        let mut lines: Vec<String> = Vec::new();
        let mut i: usize = 0;
        proof {
            reveal_strlit(" All servers ");
        }
        while i < msgs.len()
            invariant
                i <= msgs.len(),
                forall|j: int| 0 <= j < msgs@.len() ==> addressable(#[trigger] msgs@[j]),
                lines@.len() == i,
                forall|j: int| 0 <= j < i ==> outgoing_line(msgs@[j], #[trigger] lines@[j]@),
                plain(" All servers "@),
            decreases msgs.len() - i,
        {
            let msg = &msgs[i];
            let mut line = msg.1.to_string();
            line.append(" -> ");
            let label = match &msg.0 {
                Target::Single(target) => colour_server(target),
                Target::Broadcast => paint_label(" All servers "),
            };
            line.append(label.as_str());
            proof {
                match msg.0 {
                    Target::Single(to) => {
                        assert(styled(server_label(to), label@));
                    },
                    Target::Broadcast => {
                        assert(styled(" All servers "@, label@));
                    },
                }
            }
            lines.push(line);
            i = i + 1;
        }
        lines
    }
    /// Messages about winning an election: the new status, and the votes
    /// and followers of the new leader
    pub fn won_election<T: Copy, S>(raft_ref: &RaftServer<T, S>, num_votes: usize, follower_ids: &Vec<ServerId>) -> (msgs: (String, String))
        requires
            forall|i: int| 0 <= i < follower_ids@.len() ==> colourable(#[trigger] follower_ids@[i]),
        ensures
            exists|l: Seq<char>| #[trigger] styled(role_label(raft_ref@.role), l) && msgs.0@ == "is now "@ + l,
            exists|labels: Seq<Seq<char>>|
                {
                    &&& labels.len() == follower_ids@.len()
                    &&& forall|i: int| 0 <= i < labels.len() ==> styled(server_label(follower_ids@[i]), #[trigger] labels[i])
                    &&& msgs.1@ == "won election with votes="@ + decimal(num_votes as nat) + " out of quorum="@
                        + decimal(raft_ref@.quorum()) + ", followers: "@ + #[trigger] join(labels, ", "@)
                },
    {
        let status = Logger::state_update(raft_ref);
        let mut msg = String::from_str("won election with votes=");
        msg.append(to_decimal(num_votes as u64).as_str());
        msg.append(" out of quorum=");
        msg.append(to_decimal(raft_ref.quorum_size() as u64).as_str());
        msg.append(", followers: ");
        let ghost head = msg@;
        let ghost labels: Seq<Seq<char>> = Seq::empty();
        let mut i: usize = 0;
        while i < follower_ids.len()
            invariant
                i <= follower_ids.len(),
                forall|j: int| 0 <= j < follower_ids@.len() ==> colourable(#[trigger] follower_ids@[j]),
                labels.len() == i,
                forall|j: int| 0 <= j < i ==> styled(server_label(follower_ids@[j]), #[trigger] labels[j]),
                msg@ == head + join(labels, ", "@),
            decreases follower_ids.len() - i,
        {
            if i > 0 {
                msg.append(", ");
            }
            let label = colour_server(&follower_ids[i]);
            msg.append(label.as_str());
            proof {
                let new_labels = labels.push(label@);
                assert(new_labels.take(i as int) =~= labels);
                assert(new_labels.take(i + 1) =~= new_labels);
                lemma_join_push(new_labels, ", "@, i as int);
                labels = new_labels;
            }
            i = i + 1;
        }
        (status, msg)
    }

    /// Message about the entries a leader sends a follower, or the
    /// heartbeat it sends when there are none
    pub fn replicate_entries<T: Copy + std::fmt::Debug, S>(
        raft_ref: &RaftServer<T, S>,
        entries: &Vec<LogEntry<T>>,
        target: &ServerId,
        prefix_len: LogIndex,
    ) -> (msg: String)
        requires
            colourable(*target),
            entries@.len() > 0 ==> drawable(
                AnnotationType::Span(prefix_len, raft_ref@.log.entries.len() as usize),
                0,
            ),
        ensures
            entries@.len() == 0 ==> exists|l: Seq<char>| #[trigger] styled(server_label(*target), l)
                && msg@ == "preparing heartbeat signal to "@ + l,
            entries@.len() > 0 ==> exists|l: Seq<char>, d: Seq<char>|
                #![trigger styled(server_label(*target), l), rendered(raft_ref@.log.entries, one_note(AnnotationType::Span(prefix_len, raft_ref@.log.entries.len() as usize), "these entries"), 0, d)]
                {
                    &&& styled(server_label(*target), l)
                    &&& rendered(raft_ref@.log.entries, one_note(AnnotationType::Span(prefix_len, raft_ref@.log.entries.len() as usize), "these entries"), 0, d)
                    &&& msg@ == "preparing RPC call to "@ + l + "... replicating a portion of our log: "@ + d
                },
    {
        let label = colour_server(target);
        if entries.len() == 0 {
            let mut msg = String::from_str("preparing heartbeat signal to ");
            msg.append(label.as_str());
            msg
        } else {
            let log = raft_ref.log_ref();
            let notes = vec![(AnnotationType::Span(prefix_len, log.entries.len()), "these entries")];
            assert(notes@ =~= one_note(AnnotationType::Span(prefix_len, log.entries.len()), "these entries"));
            let shown = debug_log(&log.entries, notes, 0);
            let mut msg = String::from_str("preparing RPC call to ");
            msg.append(label.as_str());
            msg.append("... replicating a portion of our log: ");
            msg.append(shown.as_str());
            proof {
                assert(styled(server_label(*target), label@));
            }
            msg
        }
    }
}

} // verus!
