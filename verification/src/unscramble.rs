//! The text unscrambler: lines and tokens are taken apart, each token is
//! rendered, and the pieces are put together again.

use vstd::prelude::*;
use crate::dictionary::Dictionary;
use crate::text::{chars_of, string_of};
use crate::token::{join, joined, rendered_token, unscramble_token, views};

verus! {

/// Whether `c` is one of the five ASCII whitespace characters.
pub open spec fn is_blank(c: char) -> bool {
    c == ' ' || c == '\t' || c == '\n' || c == '\x0C' || c == '\r'
}

/// The state of a scan that cuts a text into pieces: the pieces that are
/// complete, and the piece that is still growing.
pub struct Scan {
    pub done: Seq<Seq<char>>,
    pub pending: Seq<char>,
}

/// The scan of `s` for lines: a line feed closes the open line, and any
/// other character joins it.
pub open spec fn line_scan(s: Seq<char>) -> Scan
    decreases s.len(),
{
    if s.len() == 0 {
        Scan { done: Seq::empty(), pending: Seq::empty() }
    } else {
        let before = line_scan(s.drop_last());
        if s.last() == '\n' {
            Scan { done: before.done.push(before.pending), pending: Seq::empty() }
        } else {
            Scan { done: before.done, pending: before.pending.push(s.last()) }
        }
    }
}

/// The lines of `s`. The text after the last line feed is a line only
/// where it is not empty, so a closing line feed adds no line.
pub open spec fn lines(s: Seq<char>) -> Seq<Seq<char>> {
    let scan = line_scan(s);
    if scan.pending.len() > 0 {
        scan.done.push(scan.pending)
    } else {
        scan.done
    }
}

/// The scan of `s` for tokens: a blank closes the open token if it has
/// characters, and any other character joins it.
pub open spec fn token_scan(s: Seq<char>) -> Scan
    decreases s.len(),
{
    if s.len() == 0 {
        Scan { done: Seq::empty(), pending: Seq::empty() }
    } else {
        let before = token_scan(s.drop_last());
        if !is_blank(s.last()) {
            Scan { done: before.done, pending: before.pending.push(s.last()) }
        } else if before.pending.len() > 0 {
            Scan { done: before.done.push(before.pending), pending: Seq::empty() }
        } else {
            before
        }
    }
}

/// The tokens of `s`: its maximal runs of characters that are not blank.
pub open spec fn tokens(s: Seq<char>) -> Seq<Seq<char>> {
    let scan = token_scan(s);
    if scan.pending.len() > 0 {
        scan.done.push(scan.pending)
    } else {
        scan.done
    }
}

/// The rendered tokens of a line, in order.
pub open spec fn rendered_tokens(dict: Dictionary, line: Seq<char>) -> Seq<Seq<char>> {
    tokens(line).map_values(|t: Seq<char>| rendered_token(dict, t))
}

/// The rendering of a line: its rendered tokens with one space between
/// each two.
pub open spec fn rendered_line(dict: Dictionary, line: Seq<char>) -> Seq<char> {
    joined(rendered_tokens(dict, line), seq![' '])
}

/// The rendered lines of a text, in order.
pub open spec fn rendered_lines(dict: Dictionary, text: Seq<char>) -> Seq<Seq<char>> {
    lines(text).map_values(|l: Seq<char>| rendered_line(dict, l))
}

/// The rendering of a text: its rendered lines with one line feed between
/// each two.
pub open spec fn rendered_text(dict: Dictionary, text: Seq<char>) -> Seq<char> {
    joined(rendered_lines(dict, text), seq!['\n'])
}

/// Decides whether `c` is ASCII whitespace.
pub fn blank(c: char) -> (b: bool)
    ensures
        b == is_blank(c),
{
    c == ' ' || c == '\t' || c == '\n' || c == '\x0C' || c == '\r'
}

/// Cuts `text` into its lines.
pub fn split_lines(text: &Vec<char>) -> (r: Vec<Vec<char>>)
    ensures
        views(r@) == lines(text@),
{
    let mut done: Vec<Vec<char>> = Vec::new();
    let mut pending: Vec<char> = Vec::new();
    let mut i: usize = 0;
    proof {
        assert(views(done@) =~= Seq::<Seq<char>>::empty());
    }
    while i < text.len()
        invariant
            i <= text.len(),
            views(done@) == line_scan(text@.take(i as int)).done,
            pending@ == line_scan(text@.take(i as int)).pending,
        decreases text.len() - i,
    {
        let c = text[i];
        let ghost before = done@;
        proof {
            assert(text@.take(i + 1).drop_last() =~= text@.take(i as int));
        }
        if c == '\n' {
            done.push(pending);
            pending = Vec::new();
            proof {
                assert(views(done@) =~= views(before).push(done@.last()@));
            }
        } else {
            pending.push(c);
        }
        i += 1;
    }
    proof {
        assert(text@.take(i as int) =~= text@);
    }
    if pending.len() > 0 {
        let ghost before = done@;
        done.push(pending);
        proof {
            assert(views(done@) =~= views(before).push(done@.last()@));
        }
    }
    done
}

/// Cuts `line` into its tokens.
pub fn split_tokens(line: &Vec<char>) -> (r: Vec<Vec<char>>)
    ensures
        views(r@) == tokens(line@),
{
    let mut done: Vec<Vec<char>> = Vec::new();
    let mut pending: Vec<char> = Vec::new();
    let mut i: usize = 0;
    proof {
        assert(views(done@) =~= Seq::<Seq<char>>::empty());
    }
    while i < line.len()
        invariant
            i <= line.len(),
            views(done@) == token_scan(line@.take(i as int)).done,
            pending@ == token_scan(line@.take(i as int)).pending,
        decreases line.len() - i,
    {
        let c = line[i];
        let ghost before = done@;
        proof {
            assert(line@.take(i + 1).drop_last() =~= line@.take(i as int));
        }
        if !blank(c) {
            pending.push(c);
        } else if pending.len() > 0 {
            done.push(pending);
            pending = Vec::new();
            proof {
                assert(views(done@) =~= views(before).push(done@.last()@));
            }
        }
        i += 1;
    }
    proof {
        assert(line@.take(i as int) =~= line@);
    }
    if pending.len() > 0 {
        let ghost before = done@;
        done.push(pending);
        proof {
            assert(views(done@) =~= views(before).push(done@.last()@));
        }
    }
    done
}

/// Renders a line that is given by its characters.
pub fn render_line(dict: &Dictionary, line: &Vec<char>) -> (r: Vec<char>)
    ensures
        r@ == rendered_line(*dict, line@),
{
    let pieces = split_tokens(line);
    let mut out: Vec<Vec<char>> = Vec::new();
    let mut i: usize = 0;
    proof {
        assert(views(out@) =~= views(pieces@.take(0)).map_values(
            |t: Seq<char>| rendered_token(*dict, t),
        ));
    }
    while i < pieces.len()
        invariant
            i <= pieces.len(),
            views(out@) == views(pieces@.take(i as int)).map_values(
                |t: Seq<char>| rendered_token(*dict, t),
            ),
        decreases pieces.len() - i,
    {
        let ghost before = out@;
        let piece = string_of(&pieces[i]);
        let rendered = unscramble_token(dict, piece.as_str());
        out.push(chars_of(rendered.as_str()));
        proof {
            let seen = views(pieces@.take(i as int));
            let t = pieces@[i as int]@;
            assert(views(pieces@.take(i + 1)) =~= seen.push(t));
            assert(views(out@) =~= views(before).push(rendered_token(*dict, t)));
            assert(seen.push(t).map_values(|t: Seq<char>| rendered_token(*dict, t))
                =~= seen.map_values(|t: Seq<char>| rendered_token(*dict, t)).push(
                rendered_token(*dict, t),
            ));
        }
        i += 1;
    }
    proof {
        assert(pieces@.take(i as int) =~= pieces@);
    }
    let mut sep: Vec<char> = Vec::new();
    sep.push(' ');
    proof {
        assert(sep@ =~= seq![' ']);
    }
    join(&out, &sep)
}

/// Renders one line: each of its tokens is unscrambled, and the results
/// stand in the tokens' order with one space between each two.
pub fn unscramble_line(dict: &Dictionary, scrambled_line: &str) -> (r: String)
    ensures
        r@ == rendered_line(*dict, scrambled_line@),
{
    let line = chars_of(scrambled_line);
    string_of(&render_line(dict, &line))
}

/// Renders a text: each of its lines is unscrambled, and the results stand
/// in the lines' order with one line feed between each two.
pub fn unscramble(dict: &Dictionary, scrambled_string: &str) -> (r: String)
    ensures
        r@ == rendered_text(*dict, scrambled_string@),
{
    let text = chars_of(scrambled_string);
    let pieces = split_lines(&text);
    let mut out: Vec<Vec<char>> = Vec::new();
    let mut i: usize = 0;
    proof {
        assert(views(out@) =~= views(pieces@.take(0)).map_values(
            |l: Seq<char>| rendered_line(*dict, l),
        ));
    }
    while i < pieces.len()
        invariant
            i <= pieces.len(),
            views(out@) == views(pieces@.take(i as int)).map_values(
                |l: Seq<char>| rendered_line(*dict, l),
            ),
        decreases pieces.len() - i,
    {
        let ghost before = out@;
        out.push(render_line(dict, &pieces[i]));
        proof {
            let seen = views(pieces@.take(i as int));
            let l = pieces@[i as int]@;
            assert(views(pieces@.take(i + 1)) =~= seen.push(l));
            assert(views(out@) =~= views(before).push(rendered_line(*dict, l)));
            assert(seen.push(l).map_values(|l: Seq<char>| rendered_line(*dict, l))
                =~= seen.map_values(|l: Seq<char>| rendered_line(*dict, l)).push(
                rendered_line(*dict, l),
            ));
        }
        i += 1;
    }
    proof {
        assert(pieces@.take(i as int) =~= pieces@);
    }
    let mut sep: Vec<char> = Vec::new();
    sep.push('\n');
    proof {
        assert(sep@ =~= seq!['\n']);
    }
    string_of(&join(&out, &sep))
}

/// The rendering keeps the structure of the text: it is the join of as
/// many rendered lines as the text has lines, and each of these is the
/// join of as many rendered tokens as its line has tokens, in order.
pub proof fn lemma_structure_is_kept(dict: Dictionary, text: Seq<char>)
    ensures
        rendered_text(dict, text) == joined(rendered_lines(dict, text), seq!['\n']),
        rendered_lines(dict, text).len() == lines(text).len(),
        forall|i: int|
            0 <= i < lines(text).len() ==> {
                let line = #[trigger] lines(text)[i];
                &&& rendered_lines(dict, text)[i] == joined(rendered_tokens(dict, line), seq![' '])
                &&& rendered_tokens(dict, line).len() == tokens(line).len()
                &&& forall|j: int|
                    0 <= j < tokens(line).len() ==> #[trigger] rendered_tokens(dict, line)[j]
                        == rendered_token(dict, tokens(line)[j])
            },
{
}

/// Whether no piece of `parts` holds a character that `cut` picks.
pub open spec fn free_of(parts: Seq<Seq<char>>, cut: spec_fn(char) -> bool) -> bool {
    forall|i: int, j: int|
        0 <= i < parts.len() && 0 <= j < parts[i].len() ==> !cut(#[trigger] parts[i][j])
}

/// What the scan for lines holds at any moment: no line feed in any
/// piece, and the whole text when the pieces are joined by line feeds.
proof fn lemma_line_scan(s: Seq<char>)
    ensures
        free_of(line_scan(s).done.push(line_scan(s).pending), |c: char| c == '\n'),
        joined(line_scan(s).done.push(line_scan(s).pending), seq!['\n']) == s,
    decreases s.len(),
{
    let nl = seq!['\n'];
    let now = line_scan(s);
    let all = now.done.push(now.pending);
    if s.len() == 0 {
        assert(joined(all, nl) =~= s);
    } else {
        let init = s.drop_last();
        let c = s.last();
        lemma_line_scan(init);
        let before = line_scan(init);
        let old_all = before.done.push(before.pending);
        assert(init.push(c) =~= s);
        if c == '\n' {
            assert(all.drop_last() =~= old_all);
            assert(joined(all, nl) =~= init + nl + Seq::<char>::empty());
            assert(joined(all, nl) =~= s);
            assert forall|i: int, j: int| 0 <= i < all.len() && 0 <= j < all[i].len() implies #[trigger] all[i][j] != '\n' by {
                assert(all[i] == old_all[i]);
            }
        } else {
            assert(all.drop_last() =~= old_all.drop_last());
            assert(all.last() =~= old_all.last().push(c));
            if all.len() == 1 {
                assert(joined(all, nl) =~= s);
            } else {
                assert(joined(all, nl) =~= joined(old_all, nl).push(c));
            }
            assert forall|i: int, j: int| 0 <= i < all.len() && 0 <= j < all[i].len() implies #[trigger] all[i][j] != '\n' by {
                if i < all.len() - 1 {
                    assert(all[i] == old_all[i]);
                } else if j < old_all[i].len() {
                    assert(all[i][j] == old_all[i][j]);
                }
            }
        }
    }
}

/// The lines of a text hold no line feed, and joined by line feeds they
/// give the text back, but for one line feed at its end.
pub proof fn lemma_lines_rejoin(s: Seq<char>)
    ensures
        free_of(lines(s), |c: char| c == '\n'),
        joined(lines(s), seq!['\n']) == s || joined(lines(s), seq!['\n']) + seq!['\n'] == s,
{
    let nl = seq!['\n'];
    lemma_line_scan(s);
    let now = line_scan(s);
    let all = now.done.push(now.pending);
    if now.pending.len() == 0 {
        assert(all.drop_last() =~= now.done);
        assert forall|i: int, j: int| 0 <= i < now.done.len() && 0 <= j < now.done[i].len() implies #[trigger] now.done[i][j] != '\n' by {
            assert(now.done[i] == all[i]);
        }
        if now.done.len() == 0 {
            assert(joined(now.done, nl) =~= s);
        } else {
            assert(joined(all, nl) =~= joined(now.done, nl) + nl);
        }
    }
}

/// What the scan for tokens holds at any moment: no blank in any piece,
/// and no complete piece without characters.
proof fn lemma_token_scan(s: Seq<char>)
    ensures
        free_of(token_scan(s).done.push(token_scan(s).pending), |c: char| is_blank(c)),
        forall|i: int| 0 <= i < token_scan(s).done.len() ==> (#[trigger] token_scan(s).done[i]).len() > 0,
    decreases s.len(),
{
    let now = token_scan(s);
    let all = now.done.push(now.pending);
    if s.len() > 0 {
        let init = s.drop_last();
        let c = s.last();
        lemma_token_scan(init);
        let before = token_scan(init);
        let old_all = before.done.push(before.pending);
        assert forall|i: int, j: int| 0 <= i < all.len() && 0 <= j < all[i].len() implies !is_blank(#[trigger] all[i][j]) by {
            if i < old_all.len() && j < old_all[i].len() {
                assert(all[i][j] == old_all[i][j]);
            }
        }
        assert forall|i: int| 0 <= i < now.done.len() implies (#[trigger] now.done[i]).len() > 0 by {
            if i < before.done.len() {
                assert(now.done[i] == before.done[i]);
            }
        }
    }
}

/// The tokens of a line hold no blank, and none is without characters.
pub proof fn lemma_tokens_are_words(s: Seq<char>)
    ensures
        free_of(tokens(s), |c: char| is_blank(c)),
        forall|i: int| 0 <= i < tokens(s).len() ==> (#[trigger] tokens(s)[i]).len() > 0,
{
    lemma_token_scan(s);
    let now = token_scan(s);
    let all = now.done.push(now.pending);
    assert forall|i: int, j: int| 0 <= i < tokens(s).len() && 0 <= j < tokens(s)[i].len() implies !is_blank(#[trigger] tokens(s)[i][j]) by {
        assert(tokens(s)[i] == all[i]);
    }
}

} // verus!
