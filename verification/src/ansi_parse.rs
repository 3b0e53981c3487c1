//! Reading a visible-screen ANSI dump into rows of styled characters.

use vstd::prelude::*;
use crate::sgr::{apply_sgr, apply_sgr_spec};
use crate::style::Style;
use crate::text::{
    char_is_ascii_alphabetic, char_is_control, is_ascii_letter, is_control_char, str_chars,
};

verus! {

/// A character on screen with its style.
pub type Cell = (char, Style);

pub open spec fn rows_view(rows: Seq<Vec<Cell>>) -> Seq<Seq<Cell>> {
    rows.map_values(|r: Vec<Cell>| r@)
}

/// Where a CSI sequence whose body starts at `j` ends: just past its final
/// byte (the first ASCII letter), or at the end of the text.
pub open spec fn csi_end(s: Seq<char>, j: int) -> int
    decreases s.len() - j,
{
    if j < 0 || j >= s.len() {
        s.len() as int
    } else if is_ascii_letter(s[j]) {
        j + 1
    } else {
        csi_end(s, j + 1)
    }
}

/// Where an OSC string whose body starts at `j` ends: just past BEL or past
/// `ESC \`, or at the end of the text.
pub open spec fn osc_end(s: Seq<char>, j: int) -> int
    decreases s.len() - j,
{
    if j < 0 || j >= s.len() {
        s.len() as int
    } else if s[j] == '\u{7}' {
        j + 1
    } else if s[j] == '\u{1b}' && j + 1 < s.len() && s[j + 1] == '\\' {
        j + 2
    } else {
        osc_end(s, j + 1)
    }
}

/// Both ends lie between their start and the end of the text.
pub proof fn lemma_escape_ends(s: Seq<char>, j: int)
    requires
        0 <= j <= s.len(),
    ensures
        j <= csi_end(s, j) <= s.len(),
        j <= osc_end(s, j) <= s.len(),
    decreases s.len() - j,
{
    if j < s.len() {
        lemma_escape_ends(s, j + 1);
    }
}

/// The rows of `s[i..]`, given the rows already complete (`done`), the row
/// being filled (`cur`) and the current style. A line feed starts a new row,
/// a printable character goes to the current row with the current style,
/// SGR escapes change the style, other escapes and control codes show
/// nothing.
pub open spec fn parse_from(
    s: Seq<char>,
    i: int,
    default: Style,
    done: Seq<Seq<Cell>>,
    cur: Seq<Cell>,
    style: Style,
) -> Seq<Seq<Cell>>
    decreases s.len() - i,
{
    if i < 0 || i >= s.len() {
        done.push(cur)
    } else {
        let ch = s[i];
        if ch == '\n' {
            parse_from(s, i + 1, default, done.push(cur), Seq::empty(), style)
        } else if ch == '\r' {
            parse_from(s, i + 1, default, done, cur, style)
        } else if ch == '\u{1b}' {
            if i + 1 < s.len() {
                proof {
                    lemma_escape_ends(s, i + 2);
                }
                if s[i + 1] == '[' {
                    let e = csi_end(s, i + 2);
                    let next_style = if e > i + 2 && s[e - 1] == 'm' {
                        apply_sgr_spec(style, default, s.subrange(i + 2, e - 1))
                    } else {
                        style
                    };
                    parse_from(s, e, default, done, cur, next_style)
                } else if s[i + 1] == ']' {
                    parse_from(s, osc_end(s, i + 2), default, done, cur, style)
                } else {
                    parse_from(s, i + 2, default, done, cur, style)
                }
            } else {
                parse_from(s, i + 1, default, done, cur, style)
            }
        } else if !is_control_char(ch) {
            parse_from(s, i + 1, default, done, cur.push((ch, style)), style)
        } else {
            parse_from(s, i + 1, default, done, cur, style)
        }
    }
}

/// The rows of styled characters that an ANSI dump shows, starting in the
/// `default` style.
pub open spec fn parse_spec(s: Seq<char>, default: Style) -> Seq<Seq<Cell>> {
    parse_from(s, 0, default, Seq::empty(), Seq::empty(), default)
}

/// Number of line feeds in `s`.
pub open spec fn count_newlines(s: Seq<char>) -> nat
    decreases s.len(),
{
    if s.len() == 0 {
        0
    } else {
        (if s[0] == '\n' {
            1nat
        } else {
            0nat
        }) + count_newlines(s.drop_first())
    }
}

proof fn lemma_parse_from_row_count(
    s: Seq<char>,
    i: int,
    default: Style,
    done: Seq<Seq<Cell>>,
    cur: Seq<Cell>,
    style: Style,
)
    requires
        0 <= i <= s.len(),
        forall|k: int| i <= k < s.len() ==> #[trigger] s[k] != '\u{1b}',
    ensures
        parse_from(s, i, default, done, cur, style).len() == done.len() + 1 + count_newlines(
            s.skip(i),
        ),
    decreases s.len() - i,
{
    let t = s.skip(i);
    if i < s.len() {
        assert(t.drop_first() =~= s.skip(i + 1));
        assert(t[0] == s[i]);
        let ch = s[i];
        if ch == '\n' {
            lemma_parse_from_row_count(s, i + 1, default, done.push(cur), Seq::empty(), style);
        } else if ch == '\r' {
            lemma_parse_from_row_count(s, i + 1, default, done, cur, style);
        } else if !is_control_char(ch) {
            lemma_parse_from_row_count(s, i + 1, default, done, cur.push((ch, style)), style);
        } else {
            lemma_parse_from_row_count(s, i + 1, default, done, cur, style);
        }
    } else {
        assert(t.len() == 0);
    }
}

/// In text without escape sequences, every line feed starts a new row: the
/// dump has one row more than it has line feeds.
pub proof fn lemma_rows_per_line(s: Seq<char>, default: Style)
    requires
        forall|k: int| 0 <= k < s.len() ==> #[trigger] s[k] != '\u{1b}',
    ensures
        parse_spec(s, default).len() == count_newlines(s) + 1,
{
    lemma_parse_from_row_count(s, 0, default, Seq::empty(), Seq::empty(), default);
    assert(s.skip(0) =~= s);
}

/// Index of the first line feed in `s`, or `s.len()` when there is none.
pub open spec fn first_newline(s: Seq<char>) -> nat
    decreases s.len(),
{
    if s.len() == 0 || s[0] == '\n' {
        0
    } else {
        1 + first_newline(s.drop_first())
    }
}

/// The first line feed lies within the text.
pub proof fn lemma_first_newline_bound(s: Seq<char>)
    ensures
        first_newline(s) <= s.len(),
    decreases s.len(),
{
    if s.len() > 0 && s[0] != '\n' {
        lemma_first_newline_bound(s.drop_first());
    }
}

/// The lines of `s`: the parts between line feeds.
pub open spec fn split_lines(s: Seq<char>) -> Seq<Seq<char>>
    decreases s.len(),
{
    let k = first_newline(s);
    if k >= s.len() {
        seq![s]
    } else {
        proof {
            lemma_first_newline_bound(s);
        }
        seq![s.take(k as int)] + split_lines(s.skip(k as int + 1))
    }
}

/// The characters of `line`, each in `style`.
pub open spec fn styled(line: Seq<char>, style: Style) -> Seq<Cell> {
    line.map_values(|c: char| (c, style))
}

/// The lines of `s`, each character in `style`.
pub open spec fn styled_lines(s: Seq<char>, style: Style) -> Seq<Seq<Cell>> {
    split_lines(s).map_values(|line: Seq<char>| styled(line, style))
}

/// Text of printable characters and line feeds only.
pub open spec fn is_plain_text(s: Seq<char>) -> bool {
    forall|k: int| 0 <= k < s.len() ==> #[trigger] s[k] == '\n' || !is_control_char(s[k])
}

/// `lines` with `prefix` put in front of its first line.
pub open spec fn prefix_first(prefix: Seq<Cell>, lines: Seq<Seq<Cell>>) -> Seq<Seq<Cell>> {
    lines.update(0, prefix + lines[0])
}

proof fn lemma_split_lines_nonempty(s: Seq<char>)
    ensures
        split_lines(s).len() >= 1,
    decreases s.len(),
{
    let k = first_newline(s);
    if k < s.len() {
        lemma_first_newline_bound(s);
        lemma_split_lines_nonempty(s.skip(k as int + 1));
    }
}

proof fn lemma_split_lines_cons(t: Seq<char>)
    requires
        t.len() > 0,
        t[0] != '\n',
    ensures
        split_lines(t) == split_lines(t.drop_first()).update(
            0,
            seq![t[0]] + split_lines(t.drop_first())[0],
        ),
{
    let t1 = t.drop_first();
    lemma_first_newline_bound(t1);
    lemma_split_lines_nonempty(t1);
    let k1 = first_newline(t1) as int;
    assert(first_newline(t) == k1 + 1);
    if k1 >= t1.len() {
        assert(seq![t[0]] + t1 =~= t);
        assert(split_lines(t1) == seq![t1]);
        assert(split_lines(t) == seq![t]);
        assert(split_lines(t1).update(0, seq![t[0]] + t1) =~= seq![t]);
    } else {
        assert(t.skip(k1 + 2) =~= t1.skip(k1 + 1));
        assert(t.take(k1 + 1) =~= seq![t[0]] + t1.take(k1));
        let rest = split_lines(t1.skip(k1 + 1));
        assert(split_lines(t1) == seq![t1.take(k1)] + rest);
        assert(split_lines(t) == seq![t.take(k1 + 1)] + rest);
        assert((seq![t1.take(k1)] + rest).update(0, seq![t[0]] + t1.take(k1)) =~= seq![
            t.take(k1 + 1),
        ] + rest);
    }
}

proof fn lemma_parse_plain_from(s: Seq<char>, i: int, default: Style, done: Seq<Seq<Cell>>, cur: Seq<Cell>)
    requires
        0 <= i <= s.len(),
        is_plain_text(s),
    ensures
        parse_from(s, i, default, done, cur, default) == done + prefix_first(
            cur,
            styled_lines(s.skip(i), default),
        ),
    decreases s.len() - i,
{
    let t = s.skip(i);
    lemma_split_lines_nonempty(t);
    if i == s.len() {
        assert(t =~= Seq::<char>::empty());
        assert(first_newline(t) == 0);
        assert(split_lines(t) == seq![t]);
        assert(styled(t, default) =~= Seq::<Cell>::empty());
        assert(styled_lines(t, default) =~= seq![Seq::<Cell>::empty()]);
        assert(cur + Seq::<Cell>::empty() =~= cur);
        assert(prefix_first(cur, styled_lines(t, default)) =~= seq![cur]);
        assert(done + seq![cur] =~= done.push(cur));
    } else {
        let ch = s[i];
        let t1 = s.skip(i + 1);
        assert(t.drop_first() =~= t1);
        assert(t[0] == ch);
        lemma_split_lines_nonempty(t1);
        let l1 = styled_lines(t1, default);
        if ch == '\n' {
            lemma_parse_plain_from(s, i + 1, default, done.push(cur), Seq::empty());
            assert(first_newline(t) == 0);
            assert(t.take(0) =~= Seq::<char>::empty());
            assert(t.skip(1) =~= t1);
            assert(split_lines(t) == seq![Seq::<char>::empty()] + split_lines(t1));
            assert(styled(Seq::<char>::empty(), default) =~= Seq::<Cell>::empty());
            assert(styled_lines(t, default) =~= seq![Seq::<Cell>::empty()] + l1);
            assert(Seq::<Cell>::empty() + l1[0] =~= l1[0]);
            assert(prefix_first(Seq::<Cell>::empty(), l1) =~= l1);
            assert(cur + Seq::<Cell>::empty() =~= cur);
            assert(done.push(cur) + l1 =~= done + prefix_first(cur, seq![Seq::<Cell>::empty()] + l1));
        } else {
            assert(!is_control_char(ch));
            lemma_parse_plain_from(s, i + 1, default, done, cur.push((ch, default)));
            lemma_split_lines_cons(t);
            let lines1 = split_lines(t1);
            assert(split_lines(t) == lines1.update(0, seq![ch] + lines1[0]));
            assert(styled(seq![ch] + lines1[0], default) =~= seq![(ch, default)] + styled(
                lines1[0],
                default,
            ));
            assert(styled_lines(t, default) =~= l1.update(
                0,
                seq![(ch, default)] + styled(lines1[0], default),
            ));
            assert(l1[0] == styled(lines1[0], default));
            assert(cur.push((ch, default)) + l1[0] =~= cur + (seq![(ch, default)] + styled(
                lines1[0],
                default,
            )));
            assert(prefix_first(cur.push((ch, default)), l1) =~= prefix_first(
                cur,
                styled_lines(t, default),
            ));
        }
    }
}

/// Plain text reads back as it was written: a dump of printable characters
/// and line feeds gives one row per line, each character in the default
/// style.
pub proof fn lemma_plain_text_rows(s: Seq<char>, default: Style)
    requires
        is_plain_text(s),
    ensures
        parse_spec(s, default) == styled_lines(s, default),
{
    lemma_parse_plain_from(s, 0, default, Seq::empty(), Seq::empty());
    assert(s.skip(0) =~= s);
    lemma_split_lines_nonempty(s);
    let l = styled_lines(s, default);
    assert(Seq::<Cell>::empty() + l[0] =~= l[0]);
    assert(prefix_first(Seq::empty(), l) =~= l);
    assert(Seq::<Seq<Cell>>::empty() + l =~= l);
}

proof fn lemma_csi_end_at(s: Seq<char>, j: int, n: int)
    requires
        0 <= j,
        0 <= n,
        j + n < s.len(),
        forall|k: int| j <= k < j + n ==> !is_ascii_letter(#[trigger] s[k]),
        is_ascii_letter(s[j + n]),
    ensures
        csi_end(s, j) == j + n + 1,
    decreases n,
{
    if n > 0 {
        assert(!is_ascii_letter(s[j]));
        lemma_csi_end_at(s, j + 1, n - 1);
    }
}

/// A CSI sequence that does not end in `m` (cursor motion, erase, mode
/// changes, ...) shows nothing and leaves the style alone: wherever it
/// stands, parsing from its start gives what parsing from just past it
/// gives, with the same rows, the same current row and the same style.
pub proof fn lemma_non_sgr_csi_is_skipped(
    p: Seq<char>,
    body: Seq<char>,
    fin: char,
    r: Seq<char>,
    default: Style,
    done: Seq<Seq<Cell>>,
    cur: Seq<Cell>,
    style: Style,
)
    requires
        forall|k: int| 0 <= k < body.len() ==> !is_ascii_letter(#[trigger] body[k]),
        is_ascii_letter(fin),
        fin != 'm',
    ensures
        ({
            let csi = seq!['\u{1b}', '['] + body + seq![fin];
            let s = p + csi + r;
            parse_from(s, p.len() as int, default, done, cur, style) == parse_from(
                s,
                (p.len() + csi.len()) as int,
                default,
                done,
                cur,
                style,
            )
        }),
{
    let csi = seq!['\u{1b}', '['] + body + seq![fin];
    let s = p + csi + r;
    let i = p.len() as int;
    assert(s[i] == '\u{1b}');
    assert(s[i + 1] == '[');
    assert forall|k: int| i + 2 <= k < i + 2 + body.len() implies !is_ascii_letter(#[trigger] s[k]) by {
        assert(s[k] == body[k - i - 2]);
    }
    assert(s[i + 2 + body.len()] == fin);
    lemma_csi_end_at(s, i + 2, body.len() as int);
    assert(csi_end(s, i + 2) == i + csi.len());
    assert(s[i + csi.len() - 1] == fin);
    lemma_escape_ends(s, i + 2);
}

/// An SGR sequence `ESC [ params m` shows nothing and changes the style as
/// its parameters say, starting from the style before it.
pub proof fn lemma_sgr_csi_sets_style(
    p: Seq<char>,
    params: Seq<char>,
    r: Seq<char>,
    default: Style,
    done: Seq<Seq<Cell>>,
    cur: Seq<Cell>,
    style: Style,
)
    requires
        forall|k: int| 0 <= k < params.len() ==> !is_ascii_letter(#[trigger] params[k]),
    ensures
        ({
            let csi = seq!['\u{1b}', '['] + params + seq!['m'];
            let s = p + csi + r;
            parse_from(s, p.len() as int, default, done, cur, style) == parse_from(
                s,
                (p.len() + csi.len()) as int,
                default,
                done,
                cur,
                apply_sgr_spec(style, default, params),
            )
        }),
{
    let csi = seq!['\u{1b}', '['] + params + seq!['m'];
    let s = p + csi + r;
    let i = p.len() as int;
    assert(s[i] == '\u{1b}');
    assert(s[i + 1] == '[');
    assert forall|k: int| i + 2 <= k < i + 2 + params.len() implies !is_ascii_letter(#[trigger] s[k]) by {
        assert(s[k] == params[k - i - 2]);
    }
    assert(s[i + 2 + params.len()] == 'm');
    lemma_csi_end_at(s, i + 2, params.len() as int);
    assert(s.subrange(i + 2, i + 2 + params.len()) =~= params);
    lemma_escape_ends(s, i + 2);
}

fn csi_end_exec(s: &[char], j: usize) -> (r: usize)
    requires
        j <= s@.len(),
    ensures
        r == csi_end(s@, j as int),
{
    let n = s.len();
    let mut k = j;
    while k < n && !char_is_ascii_alphabetic(s[k])
        invariant
            j <= k <= n,
            n == s@.len(),
            csi_end(s@, j as int) == csi_end(s@, k as int),
        decreases n - k,
    {
        k = k + 1;
    }
    if k < n {
        k + 1
    } else {
        n
    }
}

fn osc_end_exec(s: &[char], j: usize) -> (r: usize)
    requires
        j <= s@.len(),
    ensures
        r == osc_end(s@, j as int),
{
    let n = s.len();
    let mut k = j;
    while k < n
        invariant
            j <= k <= n,
            n == s@.len(),
            osc_end(s@, j as int) == osc_end(s@, k as int),
        decreases n - k,
    {
        if s[k] == '\u{7}' {
            return k + 1;
        }
        if s[k] == '\u{1b}' && k + 1 < n && s[k + 1] == '\\' {
            return k + 2;
        }
        k = k + 1;
    }
    n
}

/// Splits an ANSI dump of the visible screen into rows of styled characters.
pub fn parse_ansi_rows(ansi: &str, default: Style) -> (r: Vec<Vec<Cell>>)
    ensures
        rows_view(r@) == parse_spec(ansi@, default),
{
    let chars = str_chars(ansi);
    let s = chars.as_slice();
    let n = s.len();
    let mut done: Vec<Vec<Cell>> = Vec::new();
    let mut cur: Vec<Cell> = Vec::new();
    let mut style = default;
    let mut i: usize = 0;
    proof {
        assert(rows_view(done@) =~= Seq::<Seq<Cell>>::empty());
    }
    while i < n
        invariant
            s@ == ansi@,
            n == s@.len(),
            i <= n,
            parse_spec(ansi@, default) == parse_from(s@, i as int, default, rows_view(done@), cur@, style),
        decreases n - i,
    {
        let ch = s[i];
        if ch == '\n' {
            let ghost before = done@;
            let row = cur;
            cur = Vec::new();
            done.push(row);
            proof {
                assert(rows_view(done@) =~= rows_view(before).push(row@));
            }
            i = i + 1;
        } else if ch == '\r' {
            i = i + 1;
        } else if ch == '\u{1b}' {
            if i + 1 < n {
                proof {
                    lemma_escape_ends(s@, i + 2);
                }
                if s[i + 1] == '[' {
                    let e = csi_end_exec(s, i + 2);
                    if e > i + 2 && s[e - 1] == 'm' {
                        let params = vstd::slice::slice_subrange(s, i + 2, e - 1);
                        style = apply_sgr(style, default, params);
                    }
                    i = e;
                } else if s[i + 1] == ']' {
                    i = osc_end_exec(s, i + 2);
                } else {
                    i = i + 2;
                }
            } else {
                i = i + 1;
            }
        } else if !char_is_control(ch) {
            cur.push((ch, style));
            i = i + 1;
        } else {
            i = i + 1;
        }
    }
    let ghost before = done@;
    done.push(cur);
    proof {
        assert(rows_view(done@) =~= rows_view(before).push(cur@));
    }
    done
}

} // verus!
