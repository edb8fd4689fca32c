//! Plain-text output of public items and of API diffs, optionally with
//! syntax highlighting.
use crate::diff::{ChangedPublicItem, PublicItemsDiff};
use crate::public_item::{PublicItem, item_text};
use crate::text::{concat, lemma_concat_append, lemma_concat_push, lines_text};
use crate::tokens::{Token, same_token, token_text};
use vstd::prelude::*;
use vstd::string::StringExecFns;

verus! {

/// The terminal colors used to highlight tokens; `Unset` leaves the color as
/// it is.
#[derive(Clone, Copy, Debug, PartialEq, Eq, Structural)]
pub enum TermColor {
    Unset,
    Default,
    Blue,
    Cyan,
    Yellow,
    Green,
    Fixed(u8),
}

/// The decimal digit for `d`.
pub open spec fn digit_char(d: nat) -> char {
    if d == 0 {
        '0'
    } else if d == 1 {
        '1'
    } else if d == 2 {
        '2'
    } else if d == 3 {
        '3'
    } else if d == 4 {
        '4'
    } else if d == 5 {
        '5'
    } else if d == 6 {
        '6'
    } else if d == 7 {
        '7'
    } else if d == 8 {
        '8'
    } else {
        '9'
    }
}

/// A number written in decimal, without leading zeros.
pub open spec fn decimal(n: nat) -> Seq<char>
    decreases n,
{
    if n < 10 {
        seq![digit_char(n)]
    } else {
        decimal(n / 10).push(digit_char(n % 10))
    }
}

/// The code that follows `3` (foreground) or `4` (background) to select a
/// color: `9` for the default color, the color's number for the eight basic
/// ones, `8;5;n` for entry `n` of the 256-color palette.
pub open spec fn color_code(c: TermColor) -> Seq<char> {
    match c {
        TermColor::Unset => Seq::empty(),
        TermColor::Default => seq!['9'],
        TermColor::Blue => seq!['4'],
        TermColor::Cyan => seq!['6'],
        TermColor::Yellow => seq!['3'],
        TermColor::Green => seq!['2'],
        TermColor::Fixed(n) => seq!['8', ';', '5', ';'] + decimal(n as nat),
    }
}

/// The escape codes with which yansi selects the style with foreground `fg`
/// and background `bg` (the part between `ESC [` and `m`): the background's
/// code after `4`, then the foreground's after `3`, each only when set,
/// separated by `;`.
pub open spec fn ansi_codes(fg: TermColor, bg: TermColor) -> Seq<char> {
    let b = seq!['4'] + color_code(bg);
    let f = seq!['3'] + color_code(fg);
    if bg == TermColor::Unset {
        if fg == TermColor::Unset {
            Seq::empty()
        } else {
            f
        }
    } else if fg == TermColor::Unset {
        b
    } else {
        b + seq![';'] + f
    }
}

/// The escape codes with which yansi selects bold type with the 256-color
/// palette entries `fg` and `bg` (the part between `ESC [` and `m`): `1`,
/// then the background's code, then the foreground's.
pub open spec fn ansi_bold_fixed_codes(fg: u8, bg: u8) -> Seq<char> {
    seq!['1', ';'] + ansi_codes(TermColor::Fixed(fg), TermColor::Fixed(bg))
}

/// Whether a text is a list of escape codes: digits and semicolons.
pub open spec fn is_code_list(codes: Seq<char>) -> bool {
    forall|i: int| 0 <= i < codes.len() ==> ('0' <= #[trigger] codes[i] <= '9' || codes[i] == ';')
}

/// `text` between the escape sequence that selects a style and the one that
/// resets it; `text` alone for the plain style, which selects nothing.
pub open spec fn styled(codes: Seq<char>, text: Seq<char>, plain: bool) -> Seq<char> {
    if plain {
        text
    } else {
        seq!['\x1b', '['] + codes + seq!['m'] + text + seq!['\x1b', '[', '0', 'm']
    }
}

/// Whether `piece` is `text` written in a style with the given escape codes:
/// between the sequence that selects the style and the one that resets it.
pub open spec fn painted_as(piece: Seq<char>, text: Seq<char>, codes: Seq<char>, plain: bool) -> bool {
    piece == styled(codes, text, plain)
}

proof fn lemma_code_lists_concat(a: Seq<char>, b: Seq<char>)
    requires
        is_code_list(a),
        is_code_list(b),
    ensures
        is_code_list(a + b),
{
    assert forall|i: int| 0 <= i < (a + b).len() implies ('0' <= #[trigger] (a + b)[i] <= '9' || (a + b)[i]
        == ';') by {
        if i < a.len() {
            assert((a + b)[i] == a[i]);
        } else {
            assert((a + b)[i] == b[i - a.len()]);
        }
    }
}

proof fn lemma_decimal_is_code_list(n: nat)
    ensures
        is_code_list(decimal(n)),
    decreases n,
{
    if n >= 10 {
        lemma_decimal_is_code_list(n / 10);
        lemma_code_lists_concat(decimal(n / 10), seq![digit_char(n % 10)]);
        assert(decimal(n) =~= decimal(n / 10) + seq![digit_char(n % 10)]);
    }
}

proof fn lemma_color_code_is_code_list(c: TermColor)
    ensures
        is_code_list(color_code(c)),
{
    if let TermColor::Fixed(n) = c {
        lemma_decimal_is_code_list(n as nat);
        lemma_code_lists_concat(seq!['8', ';', '5', ';'], decimal(n as nat));
    }
}

/// The codes of every style that the highlighting uses are digits and
/// semicolons.
proof fn lemma_ansi_codes_are_code_lists(fg: TermColor, bg: TermColor)
    ensures
        is_code_list(ansi_codes(fg, bg)),
{
    lemma_color_code_is_code_list(fg);
    lemma_color_code_is_code_list(bg);
    lemma_code_lists_concat(seq!['4'], color_code(bg));
    lemma_code_lists_concat(seq!['3'], color_code(fg));
    lemma_code_lists_concat(seq!['4'] + color_code(bg), seq![';']);
    lemma_code_lists_concat(seq!['4'] + color_code(bg) + seq![';'], seq!['3'] + color_code(fg));
}

proof fn lemma_bold_codes_are_code_lists(fg: u8, bg: u8)
    ensures
        is_code_list(ansi_bold_fixed_codes(fg, bg)),
{
    lemma_ansi_codes_are_code_lists(TermColor::Fixed(fg), TermColor::Fixed(bg));
    lemma_code_lists_concat(seq!['1', ';'], ansi_codes(TermColor::Fixed(fg), TermColor::Fixed(bg)));
}

/// Writes `text` in yansi's style with foreground `fg` and background `bg`:
/// the style's prefix (`Style::fmt_prefix`), the text, then the style's
/// suffix (`Style::fmt_suffix`). yansi writes `ESC [`, the style's codes
/// (`ansi_codes`) and `m` as the prefix and `ESC [0m` as the suffix, or
/// nothing at all for the plain style (both colors unset), and does so
/// whatever its process-wide painting switch says: whether to color is the
/// caller's choice (`use_color`).
#[verifier::external_body]
fn paint(text: &str, fg: TermColor, bg: TermColor) -> (res: String)
    ensures
        painted_as(res@, text@, ansi_codes(fg, bg), fg == TermColor::Unset && bg == TermColor::Unset),
{
    let c = |c: TermColor| match c {
        TermColor::Unset => yansi::Color::Unset,
        TermColor::Default => yansi::Color::Default,
        TermColor::Blue => yansi::Color::Blue,
        TermColor::Cyan => yansi::Color::Cyan,
        TermColor::Yellow => yansi::Color::Yellow,
        TermColor::Green => yansi::Color::Green,
        TermColor::Fixed(n) => yansi::Color::Fixed(n),
    };
    let style = yansi::Style::new(c(fg)).bg(c(bg));
    let mut out = String::new();
    let _ = style.fmt_prefix(&mut out);
    out.push_str(text);
    let _ = style.fmt_suffix(&mut out);
    out
}

/// Writes `text` in yansi's bold style with the 256-color palette entries
/// `fg` and `bg` (`Style::new(Color::Fixed(fg)).bg(Color::Fixed(bg)).bold()`):
/// its prefix, the text, its suffix, as for `paint`. This style is never
/// plain, so the text always stands between `ESC [` + `ansi_bold_fixed_codes`
/// + `m` and `ESC [0m`.
#[verifier::external_body]
fn paint_bold_fixed(text: &str, fg: u8, bg: u8) -> (res: String)
    ensures
        painted_as(res@, text@, ansi_bold_fixed_codes(fg, bg), false),
{
    let style = yansi::Style::new(yansi::Color::Fixed(fg)).bg(yansi::Color::Fixed(bg)).bold();
    let mut out = String::new();
    let _ = style.fmt_prefix(&mut out);
    out.push_str(text);
    let _ = style.fmt_suffix(&mut out);
    out
}

/// The foreground color of each kind of token: a theme inspired by dark+ in
/// VS Code, using the terminal's default colors.
pub open spec fn token_color(t: Token) -> TermColor {
    match t {
        Token::Symbol(_) => TermColor::Default,
        Token::Qualifier(_) => TermColor::Blue,
        Token::Kind(_) => TermColor::Blue,
        Token::Whitespace => TermColor::Default,
        Token::Identifier(_) => TermColor::Cyan,
        Token::Annotation(_) => TermColor::Default,
        Token::Self_(_) => TermColor::Blue,
        Token::Function(_) => TermColor::Yellow,
        Token::Lifetime(_) => TermColor::Blue,
        Token::Keyword(_) => TermColor::Blue,
        Token::Generic(_) => TermColor::Green,
        Token::Primitive(_) => TermColor::Green,
        Token::Type(_) => TermColor::Green,
    }
}

/// The background for an optional background color.
pub open spec fn background(bg: Option<TermColor>) -> TermColor {
    match bg {
        Some(c) => c,
        None => TermColor::Unset,
    }
}

/// Whether `piece` is the token's text painted in the token's color over the
/// background.
pub open spec fn painted_token(piece: Seq<char>, t: Token, bg: Option<TermColor>) -> bool {
    painted_as(
        piece,
        token_text(t),
        ansi_codes(token_color(t), background(bg)),
        token_color(t) == TermColor::Unset && background(bg) == TermColor::Unset,
    )
}

/// Whether each piece is the painting of the token at its position.
pub open spec fn tokens_painted_as(pieces: Seq<Seq<char>>, ts: Seq<Token>, bg: Option<TermColor>) -> bool {
    &&& pieces.len() == ts.len()
    &&& forall|i: int| 0 <= i < ts.len() ==> painted_token(#[trigger] pieces[i], ts[i], bg)
}

/// Whether `s` is a token stream painted token by token.
pub open spec fn painted_tokens(s: Seq<char>, ts: Seq<Token>, bg: Option<TermColor>) -> bool {
    exists|pieces: Seq<Seq<char>>| #[trigger] tokens_painted_as(pieces, ts, bg) && s == concat(pieces)
}

/// Colors the token with syntax highlighting in its kind's color, over the
/// given background color if there is one.
fn color_item_token(token: &Token, bg: Option<TermColor>) -> (res: String)
    ensures
        painted_token(res@, *token, bg),
{
    let bg_color = match bg {
        Some(c) => c,
        None => TermColor::Unset,
    };
    let fg = match token {
        Token::Symbol(_) => TermColor::Default,
        Token::Qualifier(_) => TermColor::Blue,
        Token::Kind(_) => TermColor::Blue,
        Token::Whitespace => TermColor::Default,
        Token::Identifier(_) => TermColor::Cyan,
        Token::Annotation(_) => TermColor::Default,
        Token::Self_(_) => TermColor::Blue,
        Token::Function(_) => TermColor::Yellow,
        Token::Lifetime(_) => TermColor::Blue,
        Token::Keyword(_) => TermColor::Blue,
        Token::Generic(_) => TermColor::Green,
        Token::Primitive(_) => TermColor::Green,
        Token::Type(_) => TermColor::Green,
    };
    paint(token.text(), fg, bg_color)
}

/// Colors every token of a stream and joins the results.
fn color_token_stream(tokens: &[Token], bg: Option<TermColor>) -> (res: String)
    ensures
        painted_tokens(res@, tokens@, bg),
{
    let mut res = String::new();
    let ghost mut pieces: Seq<Seq<char>> = Seq::empty();
    let mut i: usize = 0;
    while i < tokens.len()
        invariant
            i <= tokens.len(),
            tokens_painted_as(pieces, tokens@.subrange(0, i as int), bg),
            res@ == concat(pieces),
        decreases tokens.len() - i,
    {
        let piece = color_item_token(&tokens[i], bg);
        proof {
            lemma_concat_push(pieces, piece@);
            pieces = pieces.push(piece@);
        }
        res.append(piece.as_str());
        i = i + 1;
        assert(tokens_painted_as(pieces, tokens@.subrange(0, i as int), bg));
    }
    assert(tokens@.subrange(0, tokens.len() as int) =~= tokens@);
    res
}

/// Colors an item token by token.
fn color_item(item: &PublicItem) -> (res: String)
    ensures
        painted_tokens(res@, item.tokens@, None),
{
    color_token_stream(item.tokens(), None)
}


/// One fragment of the difference between two token streams.
pub enum TokenDiff {
    /// A token only in the old stream.
    Left(Token),
    /// A token in both streams (as it is in the old stream, then in the new).
    Both(Token, Token),
    /// A token only in the new stream.
    Right(Token),
}

/// The difference that the `diff` crate computes between two token streams
/// (`diff::slice`, a longest-common-subsequence diff).
pub uninterp spec fn token_diff(old: Seq<Token>, new: Seq<Token>) -> Seq<TokenDiff>;

/// The tokens of the old stream that a diff shows: its `Left` and `Both`
/// fragments, in order.
pub open spec fn old_side(parts: Seq<TokenDiff>) -> Seq<Token>
    decreases parts.len(),
{
    if parts.len() == 0 {
        Seq::empty()
    } else {
        let rest = old_side(parts.drop_last());
        match parts.last() {
            TokenDiff::Left(t) => rest.push(t),
            TokenDiff::Both(t, _) => rest.push(t),
            TokenDiff::Right(_) => rest,
        }
    }
}

/// The tokens of the new stream that a diff shows: its `Both` and `Right`
/// fragments, in order.
pub open spec fn new_side(parts: Seq<TokenDiff>) -> Seq<Token>
    decreases parts.len(),
{
    if parts.len() == 0 {
        Seq::empty()
    } else {
        let rest = new_side(parts.drop_last());
        match parts.last() {
            TokenDiff::Left(_) => rest,
            TokenDiff::Both(_, t) => rest.push(t),
            TokenDiff::Right(t) => rest.push(t),
        }
    }
}

/// Whether every `Both` fragment pairs tokens that are equal.
pub open spec fn both_sides_agree(parts: Seq<TokenDiff>) -> bool {
    forall|i: int|
        0 <= i < parts.len() ==> match #[trigger] parts[i] {
            TokenDiff::Both(t, u) => same_token(t, u),
            _ => true,
        }
}

/// Computes the difference between two token streams with `diff::slice`.
/// The result is named `token_diff`; of it the contract states the two facts
/// that the crate's `do_diff` shows: read from the old side (`Left` and `Both`
/// fragments) it is the old stream, read from the new side (`Both` and
/// `Right`) it is the new stream; and the two tokens of a `Both` fragment
/// compare equal under `Token`'s `==` (whose meaning, `same_token`, is
/// verified). That it is a shortest such script is not stated.
#[verifier::external_body]
fn diff_tokens(old: &[Token], new: &[Token]) -> (res: Vec<TokenDiff>)
    ensures
        res@ == token_diff(old@, new@),
        old_side(res@) == old@,
        new_side(res@) == new@,
        both_sides_agree(res@),
{
    diff::slice(old, new).into_iter().map(|r| match r {
        diff::Result::Left(t) => TokenDiff::Left(t.clone()),
        diff::Result::Both(a, b) => TokenDiff::Both(a.clone(), b.clone()),
        diff::Result::Right(t) => TokenDiff::Right(t.clone()),
    }).collect()
}

/// The highlighting of a token that only one side has: bold, light red on
/// dark red for a removed token, light green on dark green for an added one.
pub open spec fn highlighted(piece: Seq<char>, t: Token, fg: u8, bg: u8) -> bool {
    painted_as(piece, token_text(t), ansi_bold_fixed_codes(fg, bg), false)
}

/// What one fragment of a diff shows on one side: on the old side, removed
/// tokens highlighted, common tokens colored, added tokens not at all; on the
/// new side the other way round.
pub open spec fn diff_piece(piece: Seq<char>, part: TokenDiff, is_old_item: bool) -> bool {
    match part {
        TokenDiff::Left(t) => if is_old_item {
            highlighted(piece, t, 9, 52)
        } else {
            piece.len() == 0
        },
        TokenDiff::Both(t, _) => painted_token(piece, t, None),
        TokenDiff::Right(t) => if is_old_item {
            piece.len() == 0
        } else {
            highlighted(piece, t, 10, 22)
        },
    }
}

/// Whether each piece is what the fragment at its position shows.
pub open spec fn diff_painted_as(pieces: Seq<Seq<char>>, parts: Seq<TokenDiff>, is_old_item: bool) -> bool {
    &&& pieces.len() == parts.len()
    &&& forall|i: int| 0 <= i < parts.len() ==> diff_piece(#[trigger] pieces[i], parts[i], is_old_item)
}

/// Whether `s` is one side of a diff, fragment by fragment.
pub open spec fn painted_diff(s: Seq<char>, parts: Seq<TokenDiff>, is_old_item: bool) -> bool {
    exists|pieces: Seq<Seq<char>>| #[trigger] diff_painted_as(pieces, parts, is_old_item) && s == concat(pieces)
}

/// Renders one side of a diff like `color_item_token`, but with whole tokens
/// highlighted where they differ.
fn color_item_with_diff(diff_slice: &[TokenDiff], is_old_item: bool) -> (res: String)
    ensures
        painted_diff(res@, diff_slice@, is_old_item),
{
    let mut res = String::new();
    let ghost mut pieces: Seq<Seq<char>> = Seq::empty();
    let mut i: usize = 0;
    while i < diff_slice.len()
        invariant
            i <= diff_slice.len(),
            diff_painted_as(pieces, diff_slice@.subrange(0, i as int), is_old_item),
            res@ == concat(pieces),
        decreases diff_slice.len() - i,
    {
        let piece = match &diff_slice[i] {
            TokenDiff::Left(token) => if is_old_item {
                paint_bold_fixed(token.text(), 9, 52)
            } else {
                String::new()
            },
            TokenDiff::Both(token, _) => color_item_token(token, None),
            TokenDiff::Right(token) => if is_old_item {
                String::new()
            } else {
                paint_bold_fixed(token.text(), 10, 22)
            },
        };
        proof {
            lemma_concat_push(pieces, piece@);
            pieces = pieces.push(piece@);
        }
        res.append(piece.as_str());
        i = i + 1;
        assert(diff_painted_as(pieces, diff_slice@.subrange(0, i as int), is_old_item));
    }
    assert(diff_slice@.subrange(0, diff_slice.len() as int) =~= diff_slice@);
    res
}


/// A section of output: the header line, then the lines of its items or
/// `(none)` when there are none, then an empty line.
pub open spec fn section_text(header: Seq<char>, lines: Seq<Seq<char>>) -> Seq<char> {
    header + seq!['\n'] + (if lines.len() == 0 {
        "(none)"@ + seq!['\n']
    } else {
        concat(lines)
    }) + seq!['\n']
}

/// Writes a header, then the already printed `items` (or `(none)` when there
/// are none), then an empty line.
pub fn print_items_with_header(header: &str, items: &[String]) -> (res: String)
    ensures
        res@ == section_text(header@, items@.map_values(|s: String| s@)),
{
    let ghost lines = items@.map_values(|s: String| s@);
    proof {
        reveal_strlit("\n");
    }
    let mut res = String::from_str(header);
    res.append("\n");
    if items.len() == 0 {
        res.append("(none)");
        res.append("\n");
    } else {
        let mut i: usize = 0;
        while i < items.len()
            invariant
                i <= items.len(),
                lines == items@.map_values(|s: String| s@),
                res@ == header@ + seq!['\n'] + concat(lines.subrange(0, i as int)),
            decreases items.len() - i,
        {
            proof {
                lemma_concat_push(lines.subrange(0, i as int), lines[i as int]);
                assert(lines.subrange(0, i as int).push(lines[i as int]) =~= lines.subrange(0, i + 1));
            }
            res.append(items[i].as_str());
            i = i + 1;
        }
        assert(lines.subrange(0, items.len() as int) =~= lines);
    }
    res.append("\n");
    proof {
        reveal_strlit("\n");
    }
    assert(res@ =~= section_text(header@, lines));
    res
}

/// Whether `r` is how an item is rendered: token by token in color, or as
/// its plain text.
pub open spec fn item_rendered(r: Seq<char>, item: PublicItem, use_color: bool) -> bool {
    if use_color {
        painted_tokens(r, item.tokens@, None)
    } else {
        r == item_text(item)
    }
}

/// Whether each rendering is that of the item at its position.
pub open spec fn items_rendered_as(renderings: Seq<Seq<char>>, items: Seq<PublicItem>, use_color: bool) -> bool {
    &&& renderings.len() == items.len()
    &&& forall|i: int| 0 <= i < items.len() ==> item_rendered(#[trigger] renderings[i], items[i], use_color)
}

/// Each rendering as a line that starts with `prefix`.
pub open spec fn prefixed_lines(prefix: char, renderings: Seq<Seq<char>>) -> Seq<Seq<char>> {
    renderings.map_values(|r: Seq<char>| seq![prefix] + r + seq!['\n'])
}

fn render_item(item: &PublicItem, use_color: bool) -> (res: String)
    ensures
        item_rendered(res@, *item, use_color),
{
    if use_color {
        color_item(item)
    } else {
        item.to_string()
    }
}

/// Renders each item, in order.
fn render_items(items: &[PublicItem], use_color: bool) -> (res: Vec<String>)
    ensures
        items_rendered_as(res@.map_values(|s: String| s@), items@, use_color),
{
    let mut res: Vec<String> = Vec::new();
    let mut i: usize = 0;
    while i < items.len()
        invariant
            i <= items.len(),
            items_rendered_as(res@.map_values(|s: String| s@), items@.subrange(0, i as int), use_color),
        decreases items.len() - i,
    {
        let ghost before = res@.map_values(|s: String| s@);
        let r = render_item(&items[i], use_color);
        res.push(r);
        let ghost after = res@.map_values(|s: String| s@);
        assert(after =~= before.push(r@));
        assert forall|j: int| 0 <= j < i + 1 implies item_rendered(
            #[trigger] after[j],
            items@.subrange(0, i + 1)[j],
            use_color,
        ) by {
            if j < i {
                assert(items@.subrange(0, i as int)[j] == items@.subrange(0, i + 1)[j]);
                assert(item_rendered(before[j], items@.subrange(0, i as int)[j], use_color));
            }
        }
        i = i + 1;
    }
    assert(items@.subrange(0, items.len() as int) =~= items@);
    res
}

/// Each string with `prefix` in front and a newline after.
fn prefix_lines(prefix: &str, renderings: Vec<String>) -> (res: Vec<String>)
    requires
        prefix@.len() == 1,
    ensures
        res@.map_values(|s: String| s@) == prefixed_lines(prefix@[0], renderings@.map_values(|s: String| s@)),
{
    let ghost rs = renderings@.map_values(|s: String| s@);
    let mut res: Vec<String> = Vec::new();
    let mut i: usize = 0;
    while i < renderings.len()
        invariant
            i <= renderings.len(),
            prefix@.len() == 1,
            rs == renderings@.map_values(|s: String| s@),
            res@.map_values(|s: String| s@) == prefixed_lines(prefix@[0], rs.subrange(0, i as int)),
        decreases renderings.len() - i,
    {
        let mut line = String::from_str(prefix);
        line.append(renderings[i].as_str());
        line.append("\n");
        proof {
            reveal_strlit("\n");
            assert(prefix@ =~= seq![prefix@[0]]);
        }
        assert(line@ =~= seq![prefix@[0]] + rs[i as int] + seq!['\n']);
        let ghost before = res@.map_values(|s: String| s@);
        res.push(line);
        assert(res@.map_values(|s: String| s@) =~= before.push(line@));
        assert(rs.subrange(0, i + 1) =~= rs.subrange(0, i as int).push(rs[i as int]));
        assert(prefixed_lines(prefix@[0], rs.subrange(0, i + 1)) =~= prefixed_lines(prefix@[0], rs.subrange(0, i as int)).push(line@));
        i = i + 1;
    }
    assert(rs.subrange(0, renderings.len() as int) =~= rs);
    res
}

/// Whether `line` shows a changed item: a line with the old item and a line
/// with the new one. In color, both lines render the diff of the two token
/// streams, highlighted where they differ, and that diff reads as the old
/// stream from the old side and as the new stream from the new side.
pub open spec fn changed_line(line: Seq<char>, changed: ChangedPublicItem, use_color: bool) -> bool {
    if use_color {
        &&& old_side(token_diff(changed.old.tokens@, changed.new.tokens@)) == changed.old.tokens@
        &&& new_side(token_diff(changed.old.tokens@, changed.new.tokens@)) == changed.new.tokens@
        &&& both_sides_agree(token_diff(changed.old.tokens@, changed.new.tokens@))
        &&& exists|a: Seq<char>, b: Seq<char>|
            #![trigger painted_diff(a, token_diff(changed.old.tokens@, changed.new.tokens@), true), painted_diff(b, token_diff(changed.old.tokens@, changed.new.tokens@), false)]
            painted_diff(a, token_diff(changed.old.tokens@, changed.new.tokens@), true) && painted_diff(
                b,
                token_diff(changed.old.tokens@, changed.new.tokens@),
                false,
            ) && line == seq!['-'] + a + seq!['\n', '+'] + b + seq!['\n']
    } else {
        line == seq!['-'] + item_text(changed.old) + seq!['\n', '+'] + item_text(changed.new) + seq!['\n']
    }
}

/// Whether each line shows the changed item at its position.
pub open spec fn changed_lines_as(lines: Seq<Seq<char>>, changed: Seq<ChangedPublicItem>, use_color: bool) -> bool {
    &&& lines.len() == changed.len()
    &&& forall|i: int| 0 <= i < changed.len() ==> changed_line(#[trigger] lines[i], changed[i], use_color)
}

fn print_changed_item(changed_item: &ChangedPublicItem, use_color: bool) -> (res: String)
    ensures
        changed_line(res@, *changed_item, use_color),
{
    let (old_text, new_text) = if use_color {
        let diff_slice = diff_tokens(changed_item.old.tokens(), changed_item.new.tokens());
        (color_item_with_diff(diff_slice.as_slice(), true), color_item_with_diff(diff_slice.as_slice(), false))
    } else {
        (changed_item.old.to_string(), changed_item.new.to_string())
    };
    let mut res = String::from_str("-");
    res.append(old_text.as_str());
    res.append("\n+");
    res.append(new_text.as_str());
    res.append("\n");
    proof {
        reveal_strlit("-");
        reveal_strlit("\n+");
        reveal_strlit("\n");
    }
    assert(res@ =~= seq!['-'] + old_text@ + seq!['\n', '+'] + new_text@ + seq!['\n']);
    res
}

fn print_changed_items(changed: &[ChangedPublicItem], use_color: bool) -> (res: Vec<String>)
    ensures
        changed_lines_as(res@.map_values(|s: String| s@), changed@, use_color),
{
    let mut res: Vec<String> = Vec::new();
    let mut i: usize = 0;
    while i < changed.len()
        invariant
            i <= changed.len(),
            changed_lines_as(res@.map_values(|s: String| s@), changed@.subrange(0, i as int), use_color),
        decreases changed.len() - i,
    {
        let ghost before = res@.map_values(|s: String| s@);
        let line = print_changed_item(&changed[i], use_color);
        res.push(line);
        let ghost after = res@.map_values(|s: String| s@);
        assert(after =~= before.push(line@));
        assert forall|j: int| 0 <= j < i + 1 implies changed_line(
            #[trigger] after[j],
            changed@.subrange(0, i + 1)[j],
            use_color,
        ) by {
            if j < i {
                assert(changed@.subrange(0, i as int)[j] == changed@.subrange(0, i + 1)[j]);
                assert(changed_line(before[j], changed@.subrange(0, i as int)[j], use_color));
            }
        }
        i = i + 1;
    }
    assert(changed@.subrange(0, changed.len() as int) =~= changed@);
    res
}

pub open spec fn removed_header() -> Seq<char> {
    "Removed items from the public API\n================================="@
}

pub open spec fn changed_header() -> Seq<char> {
    "Changed items in the public API\n==============================="@
}

pub open spec fn added_header() -> Seq<char> {
    "Added items to the public API\n============================="@
}

/// Whether `report` is the report of an API diff: the removed, the changed and
/// the added items, each in a section of its own.
pub open spec fn diff_report(report: Seq<char>, diff: PublicItemsDiff, use_color: bool) -> bool {
    exists|removed: Seq<Seq<char>>, changed: Seq<Seq<char>>, added: Seq<Seq<char>>|
        #![trigger items_rendered_as(removed, diff.removed@, use_color), changed_lines_as(changed, diff.changed@, use_color), items_rendered_as(added, diff.added@, use_color)]
        items_rendered_as(removed, diff.removed@, use_color) && changed_lines_as(changed, diff.changed@, use_color)
            && items_rendered_as(added, diff.added@, use_color) && report == section_text(
            removed_header(),
            prefixed_lines('-', removed),
        ) + section_text(changed_header(), changed) + section_text(added_header(), prefixed_lines('+', added))
}

/// Whether `output` lists the items, one rendered item per line.
pub open spec fn items_listing(output: Seq<char>, items: Seq<PublicItem>, use_color: bool) -> bool {
    exists|renderings: Seq<Seq<char>>| #[trigger]
        items_rendered_as(renderings, items, use_color) && output == lines_text(renderings)
}

/// Prints public items and API diffs as plain text.
pub struct Plain;

impl Plain {
    /// Prints each item on a line of its own, with syntax highlighting when
    /// `use_color` is set.
    pub fn print_items(use_color: bool, items: Vec<PublicItem>) -> (res: String)
        ensures
            items_listing(res@, items@, use_color),
    {
        let renderings = render_items(items.as_slice(), use_color);
        let ghost rs = renderings@.map_values(|s: String| s@);
        let mut res = String::new();
        let mut i: usize = 0;
        while i < renderings.len()
            invariant
                i <= renderings.len(),
                rs == renderings@.map_values(|s: String| s@),
                res@ == lines_text(rs.subrange(0, i as int)),
            decreases renderings.len() - i,
        {
            proof {
                lemma_concat_push(rs.subrange(0, i as int), rs[i as int]);
                assert(rs.subrange(0, i as int).push(rs[i as int]) =~= rs.subrange(0, i + 1));
                reveal_strlit("\n");
            }
            res.append(renderings[i].as_str());
            res.append("\n");
            i = i + 1;
        }
        assert(rs.subrange(0, renderings.len() as int) =~= rs);
        assert(items_rendered_as(rs, items@, use_color));
        res
    }

    /// Prints the removed, changed and added items of an API diff, each
    /// under a header; removed items are prefixed with `-`, added ones with
    /// `+`, and changed ones show the old version (`-`) and the new one (`+`).
    /// With `use_color` set, items are highlighted, and the tokens in which a
    /// changed item differs are highlighted as a whole.
    pub fn print_diff(use_color: bool, diff: &PublicItemsDiff) -> (res: String)
        ensures
            diff_report(res@, *diff, use_color),
    {
        proof {
            reveal_strlit("-");
            reveal_strlit("+");
        }
        let removed = render_items(diff.removed.as_slice(), use_color);
        let removed_lines = prefix_lines("-", removed);
        let changed_lines = print_changed_items(diff.changed.as_slice(), use_color);
        let added = render_items(diff.added.as_slice(), use_color);
        let added_lines = prefix_lines("+", added);
        proof {
            reveal_strlit("-");
            reveal_strlit("+");
        }
        let mut res = print_items_with_header(
            "Removed items from the public API\n=================================",
            removed_lines.as_slice(),
        );
        let changed_section = print_items_with_header(
            "Changed items in the public API\n===============================",
            changed_lines.as_slice(),
        );
        let added_section = print_items_with_header(
            "Added items to the public API\n=============================",
            added_lines.as_slice(),
        );
        res.append(changed_section.as_str());
        res.append(added_section.as_str());
        assert(items_rendered_as(removed@.map_values(|s: String| s@), diff.removed@, use_color));
        assert(changed_lines_as(changed_lines@.map_values(|s: String| s@), diff.changed@, use_color));
        assert(items_rendered_as(added@.map_values(|s: String| s@), diff.added@, use_color));
        res
    }
}


/// What a diff fragment shows on one side without any painting: the token's
/// text where that side shows the token, nothing elsewhere.
pub open spec fn diff_piece_unpainted(piece: Seq<char>, part: TokenDiff, is_old_item: bool) -> bool {
    match part {
        TokenDiff::Left(t) => piece == (if is_old_item {
            token_text(t)
        } else {
            Seq::empty()
        }),
        TokenDiff::Both(t, _) => piece == token_text(t),
        TokenDiff::Right(t) => piece == (if is_old_item {
            Seq::empty()
        } else {
            token_text(t)
        }),
    }
}

/// A token stream rendered token by token, with every token left unpainted,
/// is the text of the stream.
pub proof fn lemma_unpainted_tokens_are_text(pieces: Seq<Seq<char>>, ts: Seq<Token>, bg: Option<TermColor>)
    requires
        tokens_painted_as(pieces, ts, bg),
        forall|i: int| 0 <= i < ts.len() ==> #[trigger] pieces[i] == token_text(ts[i]),
    ensures
        concat(pieces) == crate::tokens::tokens_text(ts),
    decreases ts.len(),
{
    if ts.len() > 0 {
        let n = ts.len() - 1;
        assert forall|i: int| 0 <= i < n implies #[trigger] pieces.drop_last()[i] == token_text(
            ts.drop_last()[i],
        ) by {
            assert(pieces.drop_last()[i] == pieces[i]);
        }
        assert forall|i: int| 0 <= i < n implies painted_token(
            #[trigger] pieces.drop_last()[i],
            ts.drop_last()[i],
            bg,
        ) by {
            assert(pieces.drop_last()[i] == pieces[i]);
        }
        lemma_unpainted_tokens_are_text(pieces.drop_last(), ts.drop_last(), bg);
        assert(pieces[n] == token_text(ts[n]));
    }
}

/// Without painting, each side of a diff shows exactly the tokens of that
/// side: read from the old side it is the text of the old stream's tokens,
/// read from the new side the text of the new stream's tokens. With the facts
/// that `diff_tokens` states of its result, the two lines of a changed item
/// thus show the old item and the new item.
pub proof fn lemma_unpainted_diff_side_is_text(pieces: Seq<Seq<char>>, parts: Seq<TokenDiff>, is_old_item: bool)
    requires
        pieces.len() == parts.len(),
        both_sides_agree(parts),
        forall|i: int| 0 <= i < parts.len() ==> diff_piece_unpainted(#[trigger] pieces[i], parts[i], is_old_item),
    ensures
        concat(pieces) == crate::tokens::tokens_text(
            if is_old_item {
                old_side(parts)
            } else {
                new_side(parts)
            },
        ),
    decreases parts.len(),
{
    if parts.len() > 0 {
        let n = parts.len() - 1;
        assert forall|i: int| 0 <= i < n implies diff_piece_unpainted(
            #[trigger] pieces.drop_last()[i],
            parts.drop_last()[i],
            is_old_item,
        ) by {
            assert(pieces.drop_last()[i] == pieces[i]);
        }
        assert forall|i: int| 0 <= i < n implies match #[trigger] parts.drop_last()[i] {
            TokenDiff::Both(t, u) => same_token(t, u),
            _ => true,
        } by {
            assert(parts.drop_last()[i] == parts[i]);
        }
        lemma_unpainted_diff_side_is_text(pieces.drop_last(), parts.drop_last(), is_old_item);
        assert(diff_piece_unpainted(pieces[n], parts[n], is_old_item));
        let side = if is_old_item { old_side(parts) } else { new_side(parts) };
        let side0 = if is_old_item { old_side(parts.drop_last()) } else { new_side(parts.drop_last()) };
        match parts[n] {
            TokenDiff::Left(t) => {
                if is_old_item {
                    assert(side.drop_last() == side0);
                } else {
                    assert(side == side0);
                    assert(concat(pieces) =~= concat(pieces.drop_last()));
                }
            },
            TokenDiff::Both(t, u) => {
                assert(same_token(t, u));
                crate::tokens::lemma_same_token_same_text(t, u);
                assert(side.drop_last() == side0);
            },
            TokenDiff::Right(t) => {
                if is_old_item {
                    assert(side == side0);
                    assert(concat(pieces) =~= concat(pieces.drop_last()));
                } else {
                    assert(side.drop_last() == side0);
                }
            },
        }
    }
}

// ---------------------------------------------------------------------------
// Color only adds escape sequences
// ---------------------------------------------------------------------------

/// What follows the first `m` of a text (nothing if there is none).
pub open spec fn after_escape(s: Seq<char>) -> Seq<char>
    decreases s.len(),
{
    if s.len() == 0 {
        s
    } else if s[0] == 'm' {
        s.drop_first()
    } else {
        after_escape(s.drop_first())
    }
}

/// Taking an escape sequence off a text does not lengthen it.
pub proof fn lemma_after_escape_shorter(s: Seq<char>)
    ensures
        after_escape(s).len() <= s.len(),
    decreases s.len(),
{
    if s.len() > 0 && s[0] != 'm' {
        lemma_after_escape_shorter(s.drop_first());
    }
}

/// A text with every escape sequence (`ESC`, then everything up to and
/// including the next `m`) taken out.
pub open spec fn strip_escapes(s: Seq<char>) -> Seq<char>
    decreases s.len(),
{
    if s.len() == 0 {
        s
    } else if s[0] == '\x1b' {
        proof {
            lemma_after_escape_shorter(s.drop_first());
        }
        strip_escapes(after_escape(s.drop_first()))
    } else {
        seq![s[0]] + strip_escapes(s.drop_first())
    }
}

/// Whether a text holds no escape character.
pub open spec fn escape_free(s: Seq<char>) -> bool {
    forall|i: int| 0 <= i < s.len() ==> #[trigger] s[i] != '\x1b'
}

proof fn lemma_strip_plain_prefix(text: Seq<char>, rest: Seq<char>)
    requires
        escape_free(text),
    ensures
        strip_escapes(text + rest) == text + strip_escapes(rest),
    decreases text.len(),
{
    if text.len() == 0 {
        assert(text + rest =~= rest);
    } else {
        assert((text + rest)[0] == text[0]);
        assert((text + rest).drop_first() =~= text.drop_first() + rest);
        lemma_strip_plain_prefix(text.drop_first(), rest);
        assert(text =~= seq![text[0]] + text.drop_first());
    }
}

proof fn lemma_after_codes(codes: Seq<char>, rest: Seq<char>)
    requires
        is_code_list(codes),
    ensures
        after_escape(codes + seq!['m'] + rest) == rest,
    decreases codes.len(),
{
    if codes.len() == 0 {
        assert(codes + seq!['m'] + rest =~= seq!['m'] + rest);
        assert((seq!['m'] + rest).drop_first() =~= rest);
    } else {
        let c = codes + seq!['m'] + rest;
        assert(c[0] == codes[0]);
        assert(c.drop_first() =~= codes.drop_first() + seq!['m'] + rest);
        assert forall|i: int| 0 <= i < codes.drop_first().len() implies ('0' <= #[trigger] codes.drop_first()[i]
            <= '9' || codes.drop_first()[i] == ';') by {
            assert(codes.drop_first()[i] == codes[i + 1]);
        }
        lemma_after_codes(codes.drop_first(), rest);
    }
}

/// Taking the escape sequences out of what yansi writes for a text leaves
/// the text, when the text holds no escape character.
proof fn lemma_strip_painted_prefix(piece: Seq<char>, text: Seq<char>, codes: Seq<char>, plain: bool, rest: Seq<char>)
    requires
        painted_as(piece, text, codes, plain),
        is_code_list(codes),
        escape_free(text),
    ensures
        strip_escapes(piece + rest) == text + strip_escapes(rest),
{
    if piece == text || plain {
        lemma_strip_plain_prefix(text, rest);
    } else {
        let tail = seq!['\x1b', '[', '0', 'm'] + rest;
        let whole = piece + rest;
        assert(whole =~= seq!['\x1b'] + (seq!['['] + codes + seq!['m'] + (text + tail)));
        assert(whole[0] == '\x1b');
        assert(whole.drop_first() =~= seq!['['] + codes + seq!['m'] + (text + tail));
        assert(after_escape(seq!['['] + codes + seq!['m'] + (text + tail)) == after_escape(
            (seq!['['] + codes + seq!['m'] + (text + tail)).drop_first(),
        ));
        assert((seq!['['] + codes + seq!['m'] + (text + tail)).drop_first() =~= codes + seq!['m'] + (text + tail));
        lemma_after_codes(codes, text + tail);
        lemma_strip_plain_prefix(text, tail);
        assert(tail[0] == '\x1b');
        assert(tail.drop_first() =~= seq!['[', '0'] + seq!['m'] + rest);
        assert(after_escape(tail.drop_first()) == after_escape((seq!['[', '0'] + seq!['m'] + rest).drop_first()));
        assert((seq!['[', '0'] + seq!['m'] + rest).drop_first() =~= seq!['0'] + seq!['m'] + rest);
        lemma_after_codes(seq!['0'], rest);
    }
}

/// The pieces written one after the other, first piece first.
proof fn lemma_concat_front(pieces: Seq<Seq<char>>)
    requires
        pieces.len() > 0,
    ensures
        concat(pieces) == pieces[0] + concat(pieces.drop_first()),
    decreases pieces.len(),
{
    if pieces.len() == 1 {
        assert(pieces.drop_first() =~= Seq::<Seq<char>>::empty());
        assert(pieces.drop_last() =~= Seq::<Seq<char>>::empty());
        assert(pieces[0] + Seq::<char>::empty() =~= pieces[0]);
    } else {
        lemma_concat_front(pieces.drop_last());
        assert(pieces.drop_last().drop_first() =~= pieces.drop_first().drop_last());
        assert(pieces.drop_first().last() == pieces.last());
        assert(pieces.drop_last()[0] == pieces[0]);
    }
}

/// Whether no token of a stream has an escape character in its text.
pub open spec fn tokens_escape_free(ts: Seq<Token>) -> bool {
    forall|i: int| 0 <= i < ts.len() ==> escape_free(token_text(#[trigger] ts[i]))
}

/// Taking the escape sequences out of a token stream painted token by token
/// leaves the text of the stream: color only adds escape sequences. This
/// holds when no token has an escape character in its text.
pub proof fn lemma_painted_tokens_strip_to_text(s: Seq<char>, ts: Seq<Token>, bg: Option<TermColor>)
    requires
        painted_tokens(s, ts, bg),
        tokens_escape_free(ts),
    ensures
        strip_escapes(s) == crate::tokens::tokens_text(ts),
{
    let pieces = choose|pieces: Seq<Seq<char>>| #[trigger] tokens_painted_as(pieces, ts, bg) && s == concat(pieces);
    lemma_strip_painted_pieces(pieces, ts, bg, Seq::empty());
    assert(concat(pieces) + Seq::<char>::empty() =~= concat(pieces));
    assert(crate::tokens::tokens_text(ts) + Seq::<char>::empty() =~= crate::tokens::tokens_text(ts));
}

proof fn lemma_tokens_text_front(ts: Seq<Token>)
    requires
        ts.len() > 0,
    ensures
        crate::tokens::tokens_text(ts) == token_text(ts[0]) + crate::tokens::tokens_text(ts.drop_first()),
    decreases ts.len(),
{
    if ts.len() == 1 {
        assert(ts.drop_first() =~= Seq::<Token>::empty());
        assert(ts.drop_last() =~= Seq::<Token>::empty());
        assert(Seq::<char>::empty() + token_text(ts[0]) =~= token_text(ts[0]));
        assert(token_text(ts[0]) + Seq::<char>::empty() =~= token_text(ts[0]));
    } else {
        lemma_tokens_text_front(ts.drop_last());
        assert(ts.drop_last().drop_first() =~= ts.drop_first().drop_last());
        assert(ts.drop_first().last() == ts.last());
        assert(ts.drop_last()[0] == ts[0]);
    }
}

proof fn lemma_strip_painted_pieces(pieces: Seq<Seq<char>>, ts: Seq<Token>, bg: Option<TermColor>, rest: Seq<char>)
    requires
        tokens_painted_as(pieces, ts, bg),
        tokens_escape_free(ts),
    ensures
        strip_escapes(concat(pieces) + rest) == crate::tokens::tokens_text(ts) + strip_escapes(rest),
    decreases pieces.len(),
{
    if pieces.len() == 0 {
        assert(concat(pieces) + rest =~= rest);
        assert(crate::tokens::tokens_text(ts) + strip_escapes(rest) =~= strip_escapes(rest));
    } else {
        lemma_concat_front(pieces);
        lemma_tokens_text_front(ts);
        assert(painted_token(pieces[0], ts[0], bg));
        assert(escape_free(token_text(ts[0])));
        assert forall|i: int| 0 <= i < ts.drop_first().len() implies painted_token(
            #[trigger] pieces.drop_first()[i],
            ts.drop_first()[i],
            bg,
        ) by {
            assert(pieces.drop_first()[i] == pieces[i + 1]);
            assert(ts.drop_first()[i] == ts[i + 1]);
        }
        assert forall|i: int| 0 <= i < ts.drop_first().len() implies escape_free(
            token_text(#[trigger] ts.drop_first()[i]),
        ) by {
            assert(ts.drop_first()[i] == ts[i + 1]);
        }
        lemma_strip_painted_pieces(pieces.drop_first(), ts.drop_first(), bg, rest);
        assert(concat(pieces) + rest =~= pieces[0] + (concat(pieces.drop_first()) + rest));
        lemma_ansi_codes_are_code_lists(token_color(ts[0]), background(bg));
        lemma_strip_painted_prefix(
            pieces[0],
            token_text(ts[0]),
            ansi_codes(token_color(ts[0]), background(bg)),
            token_color(ts[0]) == TermColor::Unset && background(bg) == TermColor::Unset,
            concat(pieces.drop_first()) + rest,
        );
        assert(crate::tokens::tokens_text(ts) + strip_escapes(rest) =~= token_text(ts[0]) + (
        crate::tokens::tokens_text(ts.drop_first()) + strip_escapes(rest)));
    }
}

/// What a diff fragment shows on one side without painting.
pub open spec fn unpainted_piece(part: TokenDiff, is_old_item: bool) -> Seq<char> {
    match part {
        TokenDiff::Left(t) => if is_old_item {
            token_text(t)
        } else {
            Seq::empty()
        },
        TokenDiff::Both(t, _) => token_text(t),
        TokenDiff::Right(t) => if is_old_item {
            Seq::empty()
        } else {
            token_text(t)
        },
    }
}

/// Whether no token of a diff has an escape character in its text.
pub open spec fn diff_escape_free(parts: Seq<TokenDiff>) -> bool {
    forall|i: int|
        0 <= i < parts.len() ==> match #[trigger] parts[i] {
            TokenDiff::Left(t) => escape_free(token_text(t)),
            TokenDiff::Both(t, u) => escape_free(token_text(t)) && escape_free(token_text(u)),
            TokenDiff::Right(t) => escape_free(token_text(t)),
        }
}

proof fn lemma_strip_diff_pieces(pieces: Seq<Seq<char>>, parts: Seq<TokenDiff>, is_old_item: bool, rest: Seq<char>)
    requires
        diff_painted_as(pieces, parts, is_old_item),
        diff_escape_free(parts),
    ensures
        strip_escapes(concat(pieces) + rest) == concat(
            Seq::new(parts.len(), |i: int| unpainted_piece(parts[i], is_old_item)),
        ) + strip_escapes(rest),
    decreases pieces.len(),
{
    let qs = Seq::new(parts.len(), |i: int| unpainted_piece(parts[i], is_old_item));
    if pieces.len() == 0 {
        assert(concat(pieces) + rest =~= rest);
        assert(concat(qs) + strip_escapes(rest) =~= strip_escapes(rest));
    } else {
        let qs1 = Seq::new(parts.drop_first().len(), |i: int| unpainted_piece(parts.drop_first()[i], is_old_item));
        assert(qs.drop_first() =~= qs1);
        lemma_concat_front(pieces);
        lemma_concat_front(qs);
        assert forall|i: int| 0 <= i < parts.drop_first().len() implies diff_piece(
            #[trigger] pieces.drop_first()[i],
            parts.drop_first()[i],
            is_old_item,
        ) by {
            assert(pieces.drop_first()[i] == pieces[i + 1]);
            assert(parts.drop_first()[i] == parts[i + 1]);
        }
        assert forall|i: int| 0 <= i < parts.drop_first().len() implies match #[trigger] parts.drop_first()[i] {
            TokenDiff::Left(t) => escape_free(token_text(t)),
            TokenDiff::Both(t, u) => escape_free(token_text(t)) && escape_free(token_text(u)),
            TokenDiff::Right(t) => escape_free(token_text(t)),
        } by {
            assert(parts.drop_first()[i] == parts[i + 1]);
        }
        lemma_strip_diff_pieces(pieces.drop_first(), parts.drop_first(), is_old_item, rest);
        let r2 = concat(pieces.drop_first()) + rest;
        assert(concat(pieces) + rest =~= pieces[0] + r2);
        assert(diff_piece(pieces[0], parts[0], is_old_item));
        assert(match parts[0] {
            TokenDiff::Left(t) => escape_free(token_text(t)),
            TokenDiff::Both(t, u) => escape_free(token_text(t)) && escape_free(token_text(u)),
            TokenDiff::Right(t) => escape_free(token_text(t)),
        });
        assert(qs[0] == unpainted_piece(parts[0], is_old_item));
        match parts[0] {
            TokenDiff::Left(t) => {
                if is_old_item {
                    lemma_bold_codes_are_code_lists(9, 52);
                    lemma_strip_painted_prefix(pieces[0], token_text(t), ansi_bold_fixed_codes(9, 52), false, r2);
                } else {
                    assert(pieces[0] + r2 =~= r2);
                    assert(qs[0] + concat(qs1) =~= concat(qs1));
                }
            },
            TokenDiff::Both(t, _) => {
                lemma_ansi_codes_are_code_lists(token_color(t), background(None));
                lemma_strip_painted_prefix(
                    pieces[0],
                    token_text(t),
                    ansi_codes(token_color(t), background(None)),
                    token_color(t) == TermColor::Unset && background(None) == TermColor::Unset,
                    r2,
                );
            },
            TokenDiff::Right(t) => {
                if is_old_item {
                    assert(pieces[0] + r2 =~= r2);
                    assert(qs[0] + concat(qs1) =~= concat(qs1));
                } else {
                    lemma_bold_codes_are_code_lists(10, 22);
                    lemma_strip_painted_prefix(pieces[0], token_text(t), ansi_bold_fixed_codes(10, 22), false, r2);
                }
            },
        }
        assert(concat(qs) + strip_escapes(rest) =~= qs[0] + (concat(qs1) + strip_escapes(rest)));
    }
}

/// Taking the escape sequences out of one side of a painted diff leaves the
/// text of that side's tokens: the old stream's on the old side, the new
/// stream's on the new side. This holds when no token has an escape
/// character in its text and the tokens of each `Both` fragment are equal.
pub proof fn lemma_painted_diff_strips_to_side(s: Seq<char>, parts: Seq<TokenDiff>, is_old_item: bool)
    requires
        painted_diff(s, parts, is_old_item),
        both_sides_agree(parts),
        diff_escape_free(parts),
    ensures
        strip_escapes(s) == crate::tokens::tokens_text(
            if is_old_item {
                old_side(parts)
            } else {
                new_side(parts)
            },
        ),
{
    let pieces = choose|pieces: Seq<Seq<char>>| #[trigger] diff_painted_as(pieces, parts, is_old_item) && s == concat(pieces);
    lemma_strip_diff_pieces(pieces, parts, is_old_item, Seq::empty());
    assert(concat(pieces) + Seq::<char>::empty() =~= concat(pieces));
    let qs = Seq::new(parts.len(), |i: int| unpainted_piece(parts[i], is_old_item));
    assert forall|i: int| 0 <= i < parts.len() implies diff_piece_unpainted(#[trigger] qs[i], parts[i], is_old_item) by {
    }
    lemma_unpainted_diff_side_is_text(qs, parts, is_old_item);
    assert(concat(qs) + Seq::<char>::empty() =~= concat(qs));
}

/// Whether taking the escape sequences out of `c`, followed by anything,
/// leaves `p` followed by that thing with its escape sequences taken out.
pub open spec fn strips_to(c: Seq<char>, p: Seq<char>) -> bool {
    forall|rest: Seq<char>| #[trigger] strip_escapes(c + rest) == p + strip_escapes(rest)
}

proof fn lemma_strips_to_plain(t: Seq<char>)
    requires
        escape_free(t),
    ensures
        strips_to(t, t),
{
    assert forall|rest: Seq<char>| #[trigger] strip_escapes(t + rest) == t + strip_escapes(rest) by {
        lemma_strip_plain_prefix(t, rest);
    }
}

proof fn lemma_strips_to_append(a: Seq<char>, pa: Seq<char>, b: Seq<char>, pb: Seq<char>)
    requires
        strips_to(a, pa),
        strips_to(b, pb),
    ensures
        strips_to(a + b, pa + pb),
{
    assert forall|rest: Seq<char>| #[trigger] strip_escapes((a + b) + rest) == (pa + pb) + strip_escapes(rest) by {
        assert((a + b) + rest =~= a + (b + rest));
        assert(strip_escapes(a + (b + rest)) == pa + strip_escapes(b + rest));
        assert(strip_escapes(b + rest) == pb + strip_escapes(rest));
        assert(pa + (pb + strip_escapes(rest)) =~= (pa + pb) + strip_escapes(rest));
    }
}

proof fn lemma_strips_to_done(c: Seq<char>, p: Seq<char>)
    requires
        strips_to(c, p),
    ensures
        strip_escapes(c) == p,
{
    assert(strip_escapes(c + Seq::empty()) == p + strip_escapes(Seq::empty()));
    assert(c + Seq::<char>::empty() =~= c);
    assert(p + Seq::<char>::empty() =~= p);
}

proof fn lemma_strips_to_concat(cl: Seq<Seq<char>>, pl: Seq<Seq<char>>)
    requires
        cl.len() == pl.len(),
        forall|i: int| 0 <= i < cl.len() ==> strips_to(#[trigger] cl[i], pl[i]),
    ensures
        strips_to(concat(cl), concat(pl)),
        strips_to(lines_text(cl), lines_text(pl)),
    decreases cl.len(),
{
    if cl.len() == 0 {
        lemma_strips_to_plain(Seq::empty());
    } else {
        assert forall|i: int| 0 <= i < cl.drop_last().len() implies strips_to(
            #[trigger] cl.drop_last()[i],
            pl.drop_last()[i],
        ) by {
            assert(cl.drop_last()[i] == cl[i]);
            assert(pl.drop_last()[i] == pl[i]);
        }
        lemma_strips_to_concat(cl.drop_last(), pl.drop_last());
        assert(strips_to(cl.last(), pl.last()));
        lemma_strips_to_append(concat(cl.drop_last()), concat(pl.drop_last()), cl.last(), pl.last());
        lemma_strips_to_append(lines_text(cl.drop_last()), lines_text(pl.drop_last()), cl.last(), pl.last());
        assert(escape_free(seq!['\n']));
        lemma_strips_to_plain(seq!['\n']);
        lemma_strips_to_append(
            lines_text(cl.drop_last()) + cl.last(),
            lines_text(pl.drop_last()) + pl.last(),
            seq!['\n'],
            seq!['\n'],
        );
    }
}

proof fn lemma_painted_tokens_strips_to(s: Seq<char>, ts: Seq<Token>, bg: Option<TermColor>)
    requires
        painted_tokens(s, ts, bg),
        tokens_escape_free(ts),
    ensures
        strips_to(s, crate::tokens::tokens_text(ts)),
{
    let pieces = choose|pieces: Seq<Seq<char>>| #[trigger] tokens_painted_as(pieces, ts, bg) && s == concat(pieces);
    assert forall|rest: Seq<char>| #[trigger] strip_escapes(s + rest) == crate::tokens::tokens_text(ts) + strip_escapes(
        rest,
    ) by {
        lemma_strip_painted_pieces(pieces, ts, bg, rest);
    }
}

proof fn lemma_painted_diff_strips_to(s: Seq<char>, parts: Seq<TokenDiff>, is_old_item: bool)
    requires
        painted_diff(s, parts, is_old_item),
        both_sides_agree(parts),
        diff_escape_free(parts),
    ensures
        strips_to(
            s,
            crate::tokens::tokens_text(
                if is_old_item {
                    old_side(parts)
                } else {
                    new_side(parts)
                },
            ),
        ),
{
    let pieces = choose|pieces: Seq<Seq<char>>| #[trigger] diff_painted_as(pieces, parts, is_old_item) && s == concat(pieces);
    let qs = Seq::new(parts.len(), |i: int| unpainted_piece(parts[i], is_old_item));
    assert forall|i: int| 0 <= i < parts.len() implies diff_piece_unpainted(#[trigger] qs[i], parts[i], is_old_item) by {
    }
    lemma_unpainted_diff_side_is_text(qs, parts, is_old_item);
    assert forall|rest: Seq<char>| #[trigger] strip_escapes(s + rest) == concat(qs) + strip_escapes(rest) by {
        lemma_strip_diff_pieces(pieces, parts, is_old_item, rest);
    }
}

/// Whether no item has a token with an escape character in its text.
pub open spec fn items_escape_free(items: Seq<PublicItem>) -> bool {
    forall|i: int| 0 <= i < items.len() ==> tokens_escape_free((#[trigger] items[i]).tokens@)
}

proof fn lemma_renderings_strip(rc: Seq<Seq<char>>, rp: Seq<Seq<char>>, items: Seq<PublicItem>)
    requires
        items_rendered_as(rc, items, true),
        items_rendered_as(rp, items, false),
        items_escape_free(items),
    ensures
        forall|i: int| 0 <= i < rc.len() ==> strips_to(#[trigger] rc[i], rp[i]),
{
    assert forall|i: int| 0 <= i < rc.len() implies strips_to(#[trigger] rc[i], rp[i]) by {
        assert(item_rendered(rc[i], items[i], true));
        assert(item_rendered(rp[i], items[i], false));
        assert(tokens_escape_free(items[i].tokens@));
        lemma_painted_tokens_strips_to(rc[i], items[i].tokens@, None);
    }
}

/// Taking the escape sequences out of the colored listing of some items
/// leaves their plain listing: color only adds escape sequences. This holds
/// when no token has an escape character in its text.
pub proof fn lemma_colored_listing_strips_to_plain(colored: Seq<char>, plain: Seq<char>, items: Seq<PublicItem>)
    requires
        items_listing(colored, items, true),
        items_listing(plain, items, false),
        items_escape_free(items),
    ensures
        strip_escapes(colored) == plain,
{
    let rc = choose|r: Seq<Seq<char>>| #[trigger] items_rendered_as(r, items, true) && colored == lines_text(r);
    let rp = choose|r: Seq<Seq<char>>| #[trigger] items_rendered_as(r, items, false) && plain == lines_text(r);
    lemma_renderings_strip(rc, rp, items);
    lemma_strips_to_concat(rc, rp);
    lemma_strips_to_done(colored, plain);
}

proof fn lemma_prefixed_strip(prefix: char, rc: Seq<Seq<char>>, rp: Seq<Seq<char>>)
    requires
        prefix != '\x1b',
        rc.len() == rp.len(),
        forall|i: int| 0 <= i < rc.len() ==> strips_to(#[trigger] rc[i], rp[i]),
    ensures
        forall|i: int|
            0 <= i < rc.len() ==> strips_to(#[trigger] prefixed_lines(prefix, rc)[i], prefixed_lines(prefix, rp)[i]),
{
    assert forall|i: int| 0 <= i < rc.len() implies strips_to(
        #[trigger] prefixed_lines(prefix, rc)[i],
        prefixed_lines(prefix, rp)[i],
    ) by {
        assert(escape_free(seq![prefix]));
        assert(escape_free(seq!['\n']));
        lemma_strips_to_plain(seq![prefix]);
        lemma_strips_to_plain(seq!['\n']);
        assert(strips_to(rc[i], rp[i]));
        lemma_strips_to_append(seq![prefix], seq![prefix], rc[i], rp[i]);
        lemma_strips_to_append(seq![prefix] + rc[i], seq![prefix] + rp[i], seq!['\n'], seq!['\n']);
    }
}

proof fn lemma_section_strip(header: Seq<char>, cl: Seq<Seq<char>>, pl: Seq<Seq<char>>)
    requires
        escape_free(header),
        cl.len() == pl.len(),
        forall|i: int| 0 <= i < cl.len() ==> strips_to(#[trigger] cl[i], pl[i]),
    ensures
        strips_to(section_text(header, cl), section_text(header, pl)),
{
    reveal_strlit("(none)");
    let nl = seq!['\n'];
    assert(escape_free(nl));
    lemma_strips_to_plain(header);
    lemma_strips_to_plain(nl);
    let none = "(none)"@ + nl;
    assert(escape_free(none));
    lemma_strips_to_plain(none);
    lemma_strips_to_concat(cl, pl);
    let (mc, mp) = if cl.len() == 0 {
        (none, none)
    } else {
        (concat(cl), concat(pl))
    };
    lemma_strips_to_append(header, header, nl, nl);
    lemma_strips_to_append(header + nl, header + nl, mc, mp);
    lemma_strips_to_append(header + nl + mc, header + nl + mp, nl, nl);
}

/// Whether no token of any item of a diff has an escape character in its
/// text.
pub open spec fn diff_items_escape_free(diff: PublicItemsDiff) -> bool {
    &&& items_escape_free(diff.removed@)
    &&& items_escape_free(diff.added@)
    &&& forall|i: int|
        0 <= i < diff.changed@.len() ==> tokens_escape_free((#[trigger] diff.changed@[i]).old.tokens@)
            && tokens_escape_free(diff.changed@[i].new.tokens@)
}

proof fn lemma_side_escape_free(parts: Seq<TokenDiff>)
    requires
        tokens_escape_free(old_side(parts)),
        tokens_escape_free(new_side(parts)),
    ensures
        diff_escape_free(parts),
    decreases parts.len(),
{
    if parts.len() > 0 {
        let init = parts.drop_last();
        let o = old_side(parts);
        let n = new_side(parts);
        assert(forall|i: int| 0 <= i < old_side(init).len() ==> old_side(init)[i] == o[i]);
        assert(forall|i: int| 0 <= i < new_side(init).len() ==> new_side(init)[i] == n[i]);
        assert forall|i: int| 0 <= i < old_side(init).len() implies escape_free(token_text(#[trigger] old_side(init)[i])) by {
            assert(old_side(init)[i] == o[i]);
        }
        assert forall|i: int| 0 <= i < new_side(init).len() implies escape_free(token_text(#[trigger] new_side(init)[i])) by {
            assert(new_side(init)[i] == n[i]);
        }
        lemma_side_escape_free(init);
        assert forall|i: int| 0 <= i < parts.len() implies match #[trigger] parts[i] {
            TokenDiff::Left(t) => escape_free(token_text(t)),
            TokenDiff::Both(t, u) => escape_free(token_text(t)) && escape_free(token_text(u)),
            TokenDiff::Right(t) => escape_free(token_text(t)),
        } by {
            if i < init.len() {
                assert(init[i] == parts[i]);
            } else {
                match parts.last() {
                    TokenDiff::Left(t) => {
                        assert(o.last() == t);
                    },
                    TokenDiff::Both(t, u) => {
                        assert(o.last() == t);
                        assert(n.last() == u);
                    },
                    TokenDiff::Right(t) => {
                        assert(n.last() == t);
                    },
                }
            }
        }
    }
}

proof fn lemma_changed_lines_strip(cc: Seq<Seq<char>>, cp: Seq<Seq<char>>, changed: Seq<ChangedPublicItem>)
    requires
        changed_lines_as(cc, changed, true),
        changed_lines_as(cp, changed, false),
        forall|i: int|
            0 <= i < changed.len() ==> tokens_escape_free((#[trigger] changed[i]).old.tokens@)
                && tokens_escape_free(changed[i].new.tokens@),
    ensures
        forall|i: int| 0 <= i < cc.len() ==> strips_to(#[trigger] cc[i], cp[i]),
{
    assert forall|i: int| 0 <= i < cc.len() implies strips_to(#[trigger] cc[i], cp[i]) by {
        let ch = changed[i];
        assert(changed_line(cc[i], ch, true));
        assert(changed_line(cp[i], ch, false));
        let td = token_diff(ch.old.tokens@, ch.new.tokens@);
        let (a, b) = choose|a: Seq<char>, b: Seq<char>|
            #![trigger painted_diff(a, td, true), painted_diff(b, td, false)]
            painted_diff(a, td, true) && painted_diff(b, td, false) && cc[i] == seq!['-'] + a + seq!['\n', '+']
                + b + seq!['\n'];
        assert(tokens_escape_free(ch.old.tokens@) && tokens_escape_free(ch.new.tokens@));
        lemma_side_escape_free(td);
        lemma_painted_diff_strips_to(a, td, true);
        lemma_painted_diff_strips_to(b, td, false);
        assert(escape_free(seq!['-']));
        assert(escape_free(seq!['\n', '+']));
        assert(escape_free(seq!['\n']));
        lemma_strips_to_plain(seq!['-']);
        lemma_strips_to_plain(seq!['\n', '+']);
        lemma_strips_to_plain(seq!['\n']);
        lemma_strips_to_append(seq!['-'], seq!['-'], a, item_text(ch.old));
        lemma_strips_to_append(seq!['-'] + a, seq!['-'] + item_text(ch.old), seq!['\n', '+'], seq!['\n', '+']);
        lemma_strips_to_append(
            seq!['-'] + a + seq!['\n', '+'],
            seq!['-'] + item_text(ch.old) + seq!['\n', '+'],
            b,
            item_text(ch.new),
        );
        lemma_strips_to_append(
            seq!['-'] + a + seq!['\n', '+'] + b,
            seq!['-'] + item_text(ch.old) + seq!['\n', '+'] + item_text(ch.new),
            seq!['\n'],
            seq!['\n'],
        );
    }
}

/// Taking the escape sequences out of the colored report of an API diff
/// leaves its plain report: color only adds escape sequences; headers, signs,
/// item texts and line breaks are the same. This holds when no token has an
/// escape character in its text.
pub proof fn lemma_colored_report_strips_to_plain(colored: Seq<char>, plain: Seq<char>, diff: PublicItemsDiff)
    requires
        diff_report(colored, diff, true),
        diff_report(plain, diff, false),
        diff_items_escape_free(diff),
    ensures
        strip_escapes(colored) == plain,
{
    reveal_strlit("Removed items from the public API\n=================================");
    reveal_strlit("Changed items in the public API\n===============================");
    reveal_strlit("Added items to the public API\n=============================");
    assert(escape_free(removed_header()));
    assert(escape_free(changed_header()));
    assert(escape_free(added_header()));
    let (rc, cc, ac) = choose|removed: Seq<Seq<char>>, changed: Seq<Seq<char>>, added: Seq<Seq<char>>|
        #![trigger items_rendered_as(removed, diff.removed@, true), changed_lines_as(changed, diff.changed@, true), items_rendered_as(added, diff.added@, true)]
        items_rendered_as(removed, diff.removed@, true) && changed_lines_as(changed, diff.changed@, true)
            && items_rendered_as(added, diff.added@, true) && colored == section_text(
            removed_header(),
            prefixed_lines('-', removed),
        ) + section_text(changed_header(), changed) + section_text(added_header(), prefixed_lines('+', added));
    let (rp, cp, ap) = choose|removed: Seq<Seq<char>>, changed: Seq<Seq<char>>, added: Seq<Seq<char>>|
        #![trigger items_rendered_as(removed, diff.removed@, false), changed_lines_as(changed, diff.changed@, false), items_rendered_as(added, diff.added@, false)]
        items_rendered_as(removed, diff.removed@, false) && changed_lines_as(changed, diff.changed@, false)
            && items_rendered_as(added, diff.added@, false) && plain == section_text(
            removed_header(),
            prefixed_lines('-', removed),
        ) + section_text(changed_header(), changed) + section_text(added_header(), prefixed_lines('+', added));
    lemma_renderings_strip(rc, rp, diff.removed@);
    lemma_renderings_strip(ac, ap, diff.added@);
    lemma_prefixed_strip('-', rc, rp);
    lemma_prefixed_strip('+', ac, ap);
    lemma_changed_lines_strip(cc, cp, diff.changed@);
    lemma_section_strip(removed_header(), prefixed_lines('-', rc), prefixed_lines('-', rp));
    lemma_section_strip(changed_header(), cc, cp);
    lemma_section_strip(added_header(), prefixed_lines('+', ac), prefixed_lines('+', ap));
    let s1c = section_text(removed_header(), prefixed_lines('-', rc));
    let s1p = section_text(removed_header(), prefixed_lines('-', rp));
    let s2c = section_text(changed_header(), cc);
    let s2p = section_text(changed_header(), cp);
    lemma_strips_to_append(s1c, s1p, s2c, s2p);
    lemma_strips_to_append(
        s1c + s2c,
        s1p + s2p,
        section_text(added_header(), prefixed_lines('+', ac)),
        section_text(added_header(), prefixed_lines('+', ap)),
    );
    lemma_strips_to_done(colored, plain);
}

// ---------------------------------------------------------------------------
// Painting token by token
// ---------------------------------------------------------------------------

/// Painting a token stream goes token by token: two paintings written one
/// after the other are a painting of the two streams joined.
pub proof fn lemma_painted_tokens_join(
    s1: Seq<char>,
    a: Seq<Token>,
    s2: Seq<char>,
    b: Seq<Token>,
    bg: Option<TermColor>,
)
    requires
        painted_tokens(s1, a, bg),
        painted_tokens(s2, b, bg),
    ensures
        painted_tokens(s1 + s2, a + b, bg),
{
    let p1 = choose|pieces: Seq<Seq<char>>| #[trigger] tokens_painted_as(pieces, a, bg) && s1 == concat(pieces);
    let p2 = choose|pieces: Seq<Seq<char>>| #[trigger] tokens_painted_as(pieces, b, bg) && s2 == concat(pieces);
    lemma_concat_append(p1, p2);
    assert forall|i: int| 0 <= i < (a + b).len() implies painted_token(#[trigger] (p1 + p2)[i], (a + b)[i], bg) by {
        if i < a.len() {
            assert((p1 + p2)[i] == p1[i] && (a + b)[i] == a[i]);
        } else {
            assert((p1 + p2)[i] == p2[i - a.len()] && (a + b)[i] == b[i - a.len()]);
        }
    }
    assert(tokens_painted_as(p1 + p2, a + b, bg));
}

/// The empty stream paints to the empty text, and a stream of one token
/// paints as that token does.
pub proof fn lemma_painted_tokens_empty_and_single(s: Seq<char>, t: Token, bg: Option<TermColor>)
    ensures
        painted_tokens(s, Seq::empty(), bg) <==> s == Seq::<char>::empty(),
        painted_tokens(s, seq![t], bg) <==> painted_token(s, t, bg),
{
    if painted_tokens(s, Seq::empty(), bg) {
        let p = choose|pieces: Seq<Seq<char>>| #[trigger] tokens_painted_as(pieces, Seq::empty(), bg) && s == concat(pieces);
        assert(p.len() == 0);
    }
    if s == Seq::<char>::empty() {
        assert(tokens_painted_as(Seq::empty(), Seq::<Token>::empty(), bg));
        assert(concat(Seq::<Seq<char>>::empty()) == s);
    }
    if painted_tokens(s, seq![t], bg) {
        let p = choose|pieces: Seq<Seq<char>>| #[trigger] tokens_painted_as(pieces, seq![t], bg) && s == concat(pieces);
        lemma_concat_push(Seq::empty(), p[0]);
        assert(Seq::<Seq<char>>::empty().push(p[0]) =~= p);
        assert(Seq::<char>::empty() + p[0] =~= p[0]);
        assert(painted_token(p[0], seq![t][0], bg));
    }
    if painted_token(s, t, bg) {
        let p = seq![s];
        lemma_concat_push(Seq::empty(), s);
        assert(Seq::<Seq<char>>::empty().push(s) =~= p);
        assert(Seq::<char>::empty() + s =~= s);
        assert(tokens_painted_as(p, seq![t], bg));
    }
}

/// Whether every fragment of a diff is common to both streams.
pub open spec fn all_common(parts: Seq<TokenDiff>) -> bool {
    forall|i: int| 0 <= i < parts.len() ==> (#[trigger] parts[i]) is Both
}

proof fn lemma_old_side_of_common(parts: Seq<TokenDiff>)
    requires
        all_common(parts),
    ensures
        old_side(parts).len() == parts.len(),
        forall|i: int| 0 <= i < parts.len() ==> #[trigger] old_side(parts)[i] == parts[i]->Both_0,
    decreases parts.len(),
{
    if parts.len() > 0 {
        assert forall|i: int| 0 <= i < parts.drop_last().len() implies (#[trigger] parts.drop_last()[i]) is Both by {
            assert(parts.drop_last()[i] == parts[i]);
        }
        lemma_old_side_of_common(parts.drop_last());
        assert(parts.last() == parts[parts.len() - 1]);
        assert forall|i: int| 0 <= i < parts.len() implies #[trigger] old_side(parts)[i] == parts[i]->Both_0 by {
            if i < parts.len() - 1 {
                assert(parts.drop_last()[i] == parts[i]);
            }
        }
    }
}

/// A diff in which every fragment is common shows, on either side, the common
/// tokens colored token by token with no diff highlighting: exactly what the
/// colored token stream of the old tokens is.
pub proof fn lemma_common_diff_paints_as_tokens(s: Seq<char>, parts: Seq<TokenDiff>, is_old_item: bool)
    requires
        all_common(parts),
    ensures
        painted_diff(s, parts, is_old_item) <==> painted_tokens(s, old_side(parts), None),
{
    lemma_old_side_of_common(parts);
    let ts = old_side(parts);
    assert forall|pieces: Seq<Seq<char>>| #[trigger]
        diff_painted_as(pieces, parts, is_old_item) <==> tokens_painted_as(pieces, ts, None) by {
        if pieces.len() == parts.len() {
            assert forall|i: int| 0 <= i < parts.len() implies (diff_piece(#[trigger] pieces[i], parts[i], is_old_item)
                <==> painted_token(pieces[i], ts[i], None)) by {
                assert(parts[i] is Both);
                assert(ts[i] == parts[i]->Both_0);
            }
        }
    }
    if painted_diff(s, parts, is_old_item) {
        let p = choose|pieces: Seq<Seq<char>>| #[trigger] diff_painted_as(pieces, parts, is_old_item) && s == concat(pieces);
        assert(tokens_painted_as(p, ts, None));
    }
    if painted_tokens(s, ts, None) {
        let p = choose|pieces: Seq<Seq<char>>| #[trigger] tokens_painted_as(pieces, ts, None) && s == concat(pieces);
        assert(diff_painted_as(p, parts, is_old_item));
    }
}

// ---------------------------------------------------------------------------
// What the highlighting writes
// ---------------------------------------------------------------------------

/// `text` after `ESC [`, the given codes and `m`, followed by `ESC [0m`.
pub open spec fn escaped(codes: Seq<char>, text: Seq<char>) -> Seq<char> {
    seq!['\x1b', '['] + codes + seq!['m'] + text + seq!['\x1b', '[', '0', 'm']
}

/// Every token is written in its color, over no background: symbols,
/// whitespace and annotations in the default color (`ESC [39m`); qualifiers,
/// kinds, `self`, lifetimes and keywords in blue (`ESC [34m`); identifiers in
/// cyan (`ESC [36m`); function names in yellow (`ESC [33m`); generics,
/// primitive types and types in green (`ESC [32m`); each followed by
/// `ESC [0m`.
pub proof fn lemma_token_colors(piece: Seq<char>, t: Token)
    requires
        painted_token(piece, t, None),
    ensures
        match t {
            Token::Symbol(_) | Token::Whitespace | Token::Annotation(_) => piece == escaped(
                seq!['3', '9'],
                token_text(t),
            ),
            Token::Qualifier(_) | Token::Kind(_) | Token::Self_(_) | Token::Lifetime(_) | Token::Keyword(_) => piece
                == escaped(seq!['3', '4'], token_text(t)),
            Token::Identifier(_) => piece == escaped(seq!['3', '6'], token_text(t)),
            Token::Function(_) => piece == escaped(seq!['3', '3'], token_text(t)),
            Token::Generic(_) | Token::Primitive(_) | Token::Type(_) => piece == escaped(seq!['3', '2'], token_text(t)),
        },
{
    let codes = ansi_codes(token_color(t), TermColor::Unset);
    assert(codes =~= seq!['3'] + color_code(token_color(t)));
    match t {
        Token::Symbol(_) | Token::Whitespace | Token::Annotation(_) => assert(codes =~= seq!['3', '9']),
        Token::Qualifier(_) | Token::Kind(_) | Token::Self_(_) | Token::Lifetime(_) | Token::Keyword(_) => assert(codes
            =~= seq!['3', '4']),
        Token::Identifier(_) => assert(codes =~= seq!['3', '6']),
        Token::Function(_) => assert(codes =~= seq!['3', '3']),
        Token::Generic(_) | Token::Primitive(_) | Token::Type(_) => assert(codes =~= seq!['3', '2']),
    }
}

/// In a diff, a removed token is written on the old side bold, light red
/// (palette entry 9) on dark red (52): `ESC [1;48;5;52;38;5;9m`, the text,
/// `ESC [0m`; an added token on the new side bold, light green (10) on dark
/// green (22): `ESC [1;48;5;22;38;5;10m`, the text, `ESC [0m`. A token only
/// on the other side is not written at all.
pub proof fn lemma_diff_highlights(piece: Seq<char>, t: Token)
    ensures
        diff_piece(piece, TokenDiff::Left(t), true) ==> piece == escaped(
            seq!['1', ';', '4', '8', ';', '5', ';', '5', '2', ';', '3', '8', ';', '5', ';', '9'],
            token_text(t),
        ),
        diff_piece(piece, TokenDiff::Right(t), false) ==> piece == escaped(
            seq!['1', ';', '4', '8', ';', '5', ';', '2', '2', ';', '3', '8', ';', '5', ';', '1', '0'],
            token_text(t),
        ),
        diff_piece(piece, TokenDiff::Left(t), false) ==> piece.len() == 0,
        diff_piece(piece, TokenDiff::Right(t), true) ==> piece.len() == 0,
{
    reveal_with_fuel(decimal, 3);
    assert(ansi_bold_fixed_codes(9, 52) =~= seq![
        '1', ';', '4', '8', ';', '5', ';', '5', '2', ';', '3', '8', ';', '5', ';', '9',
    ]);
    assert(ansi_bold_fixed_codes(10, 22) =~= seq![
        '1', ';', '4', '8', ';', '5', ';', '2', '2', ';', '3', '8', ';', '5', ';', '1', '0',
    ]);
}

/// Two paintings of the same token stream over the same background are the
/// same text: the colored stream is a function of the tokens.
pub proof fn lemma_painted_tokens_unique(s1: Seq<char>, s2: Seq<char>, ts: Seq<Token>, bg: Option<TermColor>)
    requires
        painted_tokens(s1, ts, bg),
        painted_tokens(s2, ts, bg),
    ensures
        s1 == s2,
{
    let p1 = choose|pieces: Seq<Seq<char>>| #[trigger] tokens_painted_as(pieces, ts, bg) && s1 == concat(pieces);
    let p2 = choose|pieces: Seq<Seq<char>>| #[trigger] tokens_painted_as(pieces, ts, bg) && s2 == concat(pieces);
    assert forall|i: int| 0 <= i < p1.len() implies p1[i] == p2[i] by {
        assert(painted_token(p1[i], ts[i], bg));
        assert(painted_token(p2[i], ts[i], bg));
    }
    assert(p1 =~= p2);
}

/// Two renderings of the same side of the same diff are the same text.
pub proof fn lemma_painted_diff_unique(s1: Seq<char>, s2: Seq<char>, parts: Seq<TokenDiff>, is_old_item: bool)
    requires
        painted_diff(s1, parts, is_old_item),
        painted_diff(s2, parts, is_old_item),
    ensures
        s1 == s2,
{
    let p1 = choose|pieces: Seq<Seq<char>>| #[trigger] diff_painted_as(pieces, parts, is_old_item) && s1 == concat(pieces);
    let p2 = choose|pieces: Seq<Seq<char>>| #[trigger] diff_painted_as(pieces, parts, is_old_item) && s2 == concat(pieces);
    assert forall|i: int| 0 <= i < p1.len() implies p1[i] == p2[i] by {
        assert(diff_piece(p1[i], parts[i], is_old_item));
        assert(diff_piece(p2[i], parts[i], is_old_item));
        match parts[i] {
            TokenDiff::Left(_) | TokenDiff::Right(_) => {
                if p1[i].len() == 0 {
                    assert(p1[i] =~= p2[i]);
                }
            },
            _ => {},
        }
    }
    assert(p1 =~= p2);
}

/// A diff in which every fragment is common renders the same on both sides,
/// and that is the colored token stream of its tokens.
pub proof fn lemma_common_diff_sides_agree(
    s_old: Seq<char>,
    s_new: Seq<char>,
    s: Seq<char>,
    parts: Seq<TokenDiff>,
)
    requires
        all_common(parts),
        painted_diff(s_old, parts, true),
        painted_diff(s_new, parts, false),
        painted_tokens(s, old_side(parts), None),
    ensures
        s_old == s,
        s_new == s,
{
    lemma_common_diff_paints_as_tokens(s_old, parts, true);
    lemma_common_diff_paints_as_tokens(s_new, parts, false);
    lemma_painted_tokens_unique(s_old, s, old_side(parts), None);
    lemma_painted_tokens_unique(s_new, s, old_side(parts), None);
}

} // verus!
