//! The token unscrambler: punctuation is set aside, the clean core is
//! resolved in two passes, and the outcome is rendered.

use vstd::prelude::*;
use vstd::relations::{sorted_by, total_ordering};
use crate::dictionary::{texts, Dictionary};
use crate::resolver::{find_word_candidates, resolve};
use crate::text::{
    ascii_upper, chars_of, debug_form, debug_string, is_ascending, is_uppercase,
    is_uppercase_char, lowercase_of, sort_chars, string_of, to_lowercase,
};

verus! {

/// What a character is to a token: punctuation that goes before the word,
/// punctuation that goes after it, or part of the word.
#[derive(Clone, Copy, Debug, PartialEq, Eq, Structural)]
pub enum Mark {
    Leading,
    Trailing,
    Letter,
}

/// The mark of `c`: `(` and the low opening quote lead, `, . ) : - ?` and
/// the high closing quote trail, all else is a letter.
pub open spec fn mark_of(c: char) -> Mark {
    if c == '(' || c == '\u{201E}' {
        Mark::Leading
    } else if c == ',' || c == '.' || c == ')' || c == '\u{201C}' || c == ':' || c == '-' || c
        == '?' {
        Mark::Trailing
    } else {
        Mark::Letter
    }
}

/// The characters of `token` that carry the mark `m`, in order.
#[verifier::opaque]
pub open spec fn marked(token: Seq<char>, m: Mark) -> Seq<char> {
    token.filter(|c: char| mark_of(c) == m)
}

/// The clean core of a token: what is left when the punctuation is gone.
pub open spec fn clean_core(token: Seq<char>) -> Seq<char> {
    marked(token, Mark::Letter)
}

/// The first character of `s` that `picks` marks, if there is one. The
/// two run side by side, as far as the shorter one goes.
pub open spec fn first_picked(s: Seq<char>, picks: Seq<bool>) -> Option<char>
    decreases s.len(),
{
    if s.len() == 0 || picks.len() == 0 {
        None
    } else if picks[0] {
        Some(s[0])
    } else {
        first_picked(s.drop_first(), picks.drop_first())
    }
}

/// The first upper-case character of `s`, if it has one.
pub open spec fn first_uppercase(s: Seq<char>) -> Option<char> {
    first_picked(s, s.map_values(|c: char| is_uppercase_char(c)))
}

/// `word` with its first character in ASCII upper case.
pub open spec fn capitalized(word: Seq<char>) -> Seq<char> {
    if word.len() == 0 {
        word
    } else {
        word.update(0, ascii_upper(word[0]))
    }
}

/// The outcome of the relaxed pass on an already lower-cased core: the
/// candidates that begin with the forced letter, each capitalized.
pub open spec fn relaxed_candidates(
    dict: Dictionary,
    lowered: Seq<char>,
    forced: Option<char>,
) -> Seq<Seq<char>> {
    resolve(dict, lowered, forced).map_values(|w: Seq<char>| capitalized(w))
}

/// The candidates for a clean core: those of the exact pass, or, where it
/// finds none, those of the relaxed pass.
pub open spec fn candidates(dict: Dictionary, core: Seq<char>) -> Seq<Seq<char>> {
    let exact = resolve(dict, core, None);
    if exact.len() > 0 {
        exact
    } else {
        relaxed_candidates(dict, lowercase_of(core), first_uppercase(core))
    }
}

/// The order of characters by code point.
pub open spec fn char_leq() -> spec_fn(char, char) -> bool {
    |a: char, b: char| a <= b
}

/// The characters of `s` in ascending order of code points.
pub open spec fn ascending(s: Seq<char>) -> Seq<char> {
    s.sort_by(char_leq())
}

/// `parts` with `sep` between each two neighbours.
pub open spec fn joined(parts: Seq<Seq<char>>, sep: Seq<char>) -> Seq<char>
    decreases parts.len(),
{
    if parts.len() == 0 {
        Seq::empty()
    } else if parts.len() == 1 {
        parts[0]
    } else {
        joined(parts.drop_last(), sep) + sep + parts.last()
    }
}

/// The marker of an unresolved core: its sorted letters between backticks.
pub open spec fn unresolved_form(core: Seq<char>) -> Seq<char> {
    seq!['`'] + ascending(core) + seq!['`']
}

/// The list of already quoted words: comma and space between them, square
/// brackets around them.
pub open spec fn bracketed(quoted: Seq<Seq<char>>) -> Seq<char> {
    seq!['['] + joined(quoted, seq![',', ' ']) + seq![']']
}

/// The marker of an ambiguous match: the candidates, each quoted, as a list.
pub open spec fn list_form(words: Seq<Seq<char>>) -> Seq<char> {
    bracketed(words.map_values(|w: Seq<char>| debug_form(w)))
}

/// The rendering of a core with its candidates: the marker of an
/// unresolved core for none, the word itself for one, the list for more.
pub open spec fn body(words: Seq<Seq<char>>, core: Seq<char>) -> Seq<char> {
    if words.len() == 0 {
        unresolved_form(core)
    } else if words.len() == 1 {
        words[0]
    } else {
        list_form(words)
    }
}

/// The rendering of a token: its leading punctuation, the rendering of its
/// core, its trailing punctuation.
pub open spec fn rendered_token(dict: Dictionary, token: Seq<char>) -> Seq<char> {
    marked(token, Mark::Leading) + body(candidates(dict, clean_core(token)), clean_core(token))
        + marked(token, Mark::Trailing)
}

/// The views of a sequence of character vectors.
pub open spec fn views(v: Seq<Vec<char>>) -> Seq<Seq<char>> {
    v.map_values(|x: Vec<char>| x@)
}

/// Decides the mark of `c`.
pub fn classify(c: char) -> (m: Mark)
    ensures
        m == mark_of(c),
{
    if c == '(' || c == '\u{201E}' {
        Mark::Leading
    } else if c == ',' || c == '.' || c == ')' || c == '\u{201C}' || c == ':' || c == '-' || c
        == '?' {
        Mark::Trailing
    } else {
        Mark::Letter
    }
}

/// Picks the characters of `token` that carry the mark `m`.
pub fn select(token: &Vec<char>, m: Mark) -> (r: Vec<char>)
    ensures
        r@ == marked(token@, m),
{
    let mut r: Vec<char> = Vec::new();
    let mut i: usize = 0;
    proof {
        reveal(marked);
        assert(token@.take(0).filter(|c: char| mark_of(c) == m) =~= Seq::<char>::empty());
    }
    while i < token.len()
        invariant
            i <= token.len(),
            r@ == marked(token@.take(i as int), m),
        decreases token.len() - i,
    {
        let c = token[i];
        proof {
            reveal(marked);
            assert(token@.take(i + 1) =~= token@.take(i as int).push(c));
            token@.take(i as int).lemma_filter_push(c, |c: char| mark_of(c) == m);
        }
        if classify(c) == m {
            r.push(c);
        }
        i += 1;
    }
    proof {
        assert(token@.take(i as int) =~= token@);
    }
    r
}

/// Appends the characters of `tail` to `out`.
pub fn append(out: &mut Vec<char>, tail: &Vec<char>)
    ensures
        final(out)@ == old(out)@ + tail@,
{
    let mut i: usize = 0;
    while i < tail.len()
        invariant
            i <= tail.len(),
            out@ == old(out)@ + tail@.take(i as int),
        decreases tail.len() - i,
    {
        out.push(tail[i]);
        proof {
            assert(old(out)@ + tail@.take(i + 1) =~= (old(out)@ + tail@.take(i as int)).push(
                tail@[i as int],
            ));
        }
        i += 1;
    }
    proof {
        assert(tail@.take(i as int) =~= tail@);
    }
}

/// Joins `parts` with `sep` between each two neighbours.
pub fn join(parts: &Vec<Vec<char>>, sep: &Vec<char>) -> (r: Vec<char>)
    ensures
        r@ == joined(views(parts@), sep@),
{
    let mut r: Vec<char> = Vec::new();
    let mut i: usize = 0;
    while i < parts.len()
        invariant
            i <= parts.len(),
            r@ == joined(views(parts@.take(i as int)), sep@),
        decreases parts.len() - i,
    {
        proof {
            let next = views(parts@.take(i + 1));
            assert(next.drop_last() =~= views(parts@.take(i as int)));
            assert(next.last() == parts@[i as int]@);
            if i == 0 {
                assert(Seq::<char>::empty() + parts@[0]@ =~= parts@[0]@);
            }
        }
        if i > 0 {
            append(&mut r, sep);
        }
        append(&mut r, &parts[i]);
        i += 1;
    }
    proof {
        assert(parts@.take(i as int) =~= parts@);
    }
    r
}

/// Finds the first character of `s` that `picks` marks.
pub fn pick_first(s: &Vec<char>, picks: &Vec<bool>) -> (r: Option<char>)
    ensures
        r == first_picked(s@, picks@),
{
    let mut i: usize = 0;
    proof {
        assert(s@.skip(0) =~= s@);
        assert(picks@.skip(0) =~= picks@);
    }
    while i < s.len() && i < picks.len()
        invariant
            i <= s.len(),
            i <= picks.len(),
            first_picked(s@, picks@) == first_picked(s@.skip(i as int), picks@.skip(i as int)),
        decreases s.len() - i,
    {
        if picks[i] {
            return Some(s[i]);
        }
        proof {
            assert(s@.skip(i as int).drop_first() =~= s@.skip(i + 1));
            assert(picks@.skip(i as int).drop_first() =~= picks@.skip(i + 1));
        }
        i += 1;
    }
    None
}

/// Finds the first upper-case character of `core`.
pub fn find_first_uppercase(core: &Vec<char>) -> (r: Option<char>)
    ensures
        r == first_uppercase(core@),
{
    let mut picks: Vec<bool> = Vec::new();
    let mut i: usize = 0;
    while i < core.len()
        invariant
            i <= core.len(),
            picks@ == core@.take(i as int).map_values(|c: char| is_uppercase_char(c)),
        decreases core.len() - i,
    {
        picks.push(is_uppercase(core[i]));
        proof {
            assert(picks@ =~= core@.take(i + 1).map_values(|c: char| is_uppercase_char(c)));
        }
        i += 1;
    }
    proof {
        assert(core@.take(i as int) =~= core@);
    }
    pick_first(core, &picks)
}

/// Puts the first character of `word` into ASCII upper case.
pub fn capitalize(word: &str) -> (r: String)
    ensures
        r@ == capitalized(word@),
{
    let mut letters = chars_of(word);
    if letters.len() > 0 {
        let first = letters[0].to_ascii_uppercase();
        letters.set(0, first);
    }
    string_of(&letters)
}

/// The relaxed pass on an already lower-cased core: resolves it with the
/// forced first letter and capitalizes what comes back.
pub fn second_pass(dict: &Dictionary, lowered: &str, forced: Option<char>) -> (found: Vec<String>)
    ensures
        texts(found@) == relaxed_candidates(*dict, lowered@, forced),
{
    let plain = find_word_candidates(dict, lowered, forced);
    let mut found: Vec<String> = Vec::new();
    let mut i: usize = 0;
    while i < plain.len()
        invariant
            i <= plain.len(),
            texts(found@) == texts(plain@.take(i as int)).map_values(
                |w: Seq<char>| capitalized(w),
            ),
        decreases plain.len() - i,
    {
        let ghost before = found@;
        found.push(capitalize(plain[i].as_str()));
        proof {
            let done = texts(plain@.take(i as int));
            let w = plain@[i as int]@;
            assert(texts(plain@.take(i + 1)) =~= done.push(w));
            assert(texts(found@) =~= texts(before).push(capitalized(w)));
            assert(done.push(w).map_values(|w: Seq<char>| capitalized(w)) =~= done.map_values(
                |w: Seq<char>| capitalized(w),
            ).push(capitalized(w)));
        }
        i += 1;
    }
    proof {
        assert(plain@.take(i as int) =~= plain@);
    }
    found
}

/// Applies the two passes to a clean core: the exact one, and the relaxed
/// one where the exact one finds nothing.
pub fn word_candidates(dict: &Dictionary, core: &Vec<char>) -> (found: Vec<String>)
    ensures
        texts(found@) == candidates(*dict, core@),
{
    let word = string_of(core);
    let exact = find_word_candidates(dict, word.as_str(), None);
    if exact.len() > 0 {
        return exact;
    }
    let lowered = to_lowercase(word.as_str());
    second_pass(dict, lowered.as_str(), find_first_uppercase(core))
}

/// The order by code point is a total order.
pub proof fn lemma_char_order_total()
    ensures
        total_ordering(char_leq()),
{
    assert(vstd::relations::reflexive(char_leq()));
    assert(vstd::relations::antisymmetric(char_leq()));
    assert(vstd::relations::transitive(char_leq()));
    assert(vstd::relations::strongly_connected(char_leq()));
}

/// `ascending(s)` is the one arrangement of the characters of `s` that is
/// in ascending order.
pub proof fn lemma_ascending_unique(s: Seq<char>, t: Seq<char>)
    requires
        is_ascending(t),
        t.to_multiset() == s.to_multiset(),
    ensures
        t == ascending(s),
{
    lemma_char_order_total();
    s.lemma_sort_by_ensures(char_leq());
    assert(sorted_by(t, char_leq()));
    vstd::seq_lib::lemma_sorted_unique(t, ascending(s), char_leq());
}

/// Sorts the letters of `core` into ascending order of code points.
pub fn sorted_letters(core: &Vec<char>) -> (r: Vec<char>)
    ensures
        r@ == ascending(core@),
{
    let mut r: Vec<char> = Vec::new();
    append(&mut r, core);
    proof {
        assert(r@ =~= core@);
    }
    sort_chars(&mut r);
    proof {
        lemma_ascending_unique(core@, r@);
    }
    r
}

/// Lays out the list of already quoted words.
pub fn render_list(quoted: &Vec<Vec<char>>) -> (r: Vec<char>)
    ensures
        r@ == bracketed(views(quoted@)),
{
    let mut sep: Vec<char> = Vec::new();
    sep.push(',');
    sep.push(' ');
    proof {
        assert(sep@ =~= seq![',', ' ']);
    }
    let inner = join(quoted, &sep);
    let mut r: Vec<char> = Vec::new();
    r.push('[');
    append(&mut r, &inner);
    r.push(']');
    proof {
        assert(r@ =~= bracketed(views(quoted@)));
    }
    r
}

/// Renders a core with its candidates.
pub fn render_body(words: &Vec<String>, core: &Vec<char>) -> (r: Vec<char>)
    ensures
        r@ == body(texts(words@), core@),
{
    if words.len() == 0 {
        let letters = sorted_letters(core);
        let mut r: Vec<char> = Vec::new();
        r.push('`');
        append(&mut r, &letters);
        r.push('`');
        proof {
            assert(r@ =~= unresolved_form(core@));
        }
        r
    } else if words.len() == 1 {
        chars_of(words[0].as_str())
    } else {
        let mut quoted: Vec<Vec<char>> = Vec::new();
        let mut i: usize = 0;
        while i < words.len()
            invariant
                i <= words.len(),
                views(quoted@) == texts(words@.take(i as int)).map_values(
                    |w: Seq<char>| debug_form(w),
                ),
            decreases words.len() - i,
        {
            let q = debug_string(words[i].as_str());
            let ghost before = quoted@;
            quoted.push(chars_of(q.as_str()));
            proof {
                let done = texts(words@.take(i as int));
                let w = words@[i as int]@;
                assert(texts(words@.take(i + 1)) =~= done.push(w));
                assert(views(quoted@) =~= views(before).push(debug_form(w)));
                assert(done.push(w).map_values(|w: Seq<char>| debug_form(w)) =~= done.map_values(
                    |w: Seq<char>| debug_form(w),
                ).push(debug_form(w)));
            }
            i += 1;
        }
        proof {
            assert(words@.take(i as int) =~= words@);
        }
        render_list(&quoted)
    }
}

/// Renders one token: resolves its clean core and puts its punctuation
/// back, the leading marks before the rendered core and the trailing
/// marks after it.
pub fn unscramble_token(dict: &Dictionary, token: &str) -> (r: String)
    ensures
        r@ == rendered_token(*dict, token@),
{
    let raw = chars_of(token);
    let core = select(&raw, Mark::Letter);
    let found = word_candidates(dict, &core);
    let mut out = select(&raw, Mark::Leading);
    append(&mut out, &render_body(&found, &core));
    append(&mut out, &select(&raw, Mark::Trailing));
    string_of(&out)
}

/// Sorting changes nothing where the letters ascend already, so the
/// marker of an unresolved core that is sorted holds the core itself, and
/// sorting twice gives what sorting once gives.
pub proof fn lemma_sorting_is_idempotent(s: Seq<char>)
    ensures
        is_ascending(s) ==> ascending(s) == s,
        is_ascending(s) ==> unresolved_form(s) == seq!['`'] + s + seq!['`'],
        ascending(ascending(s)) == ascending(s),
        unresolved_form(ascending(s)) == unresolved_form(s),
{
    lemma_char_order_total();
    s.lemma_sort_by_ensures(char_leq());
    let once = ascending(s);
    assert(is_ascending(once)) by {
        assert forall|i: int, j: int| 0 <= i <= j < once.len() implies once[i] <= once[j] by {
            if i < j {
                assert(char_leq()(once[i], once[j]));
            }
        }
    }
    lemma_ascending_unique(once, once);
    if is_ascending(s) {
        lemma_ascending_unique(s, s);
    }
}

/// Each character of `marked(token, m)` carries the mark `m`; so the clean
/// core holds no punctuation.
pub proof fn lemma_marked_carry_the_mark(token: Seq<char>, m: Mark)
    ensures
        forall|i: int| 0 <= i < marked(token, m).len() ==> mark_of(#[trigger] marked(token, m)[i]) == m,
{
    reveal(marked);
    let pred = |c: char| mark_of(c) == m;
    assert forall|i: int| 0 <= i < marked(token, m).len() implies mark_of(
        #[trigger] marked(token, m)[i],
    ) == m by {
        token.lemma_filter_pred(pred, i);
    }
}

/// Whether every character of `s` carries the mark `m`.
#[verifier::opaque]
pub open spec fn all_marked(s: Seq<char>, m: Mark) -> bool {
    forall|i: int| 0 <= i < s.len() ==> mark_of(#[trigger] s[i]) == m
}

/// A sequence whose characters all carry the mark `m` is kept whole by the
/// choice of `m` and dropped whole by the choice of another mark.
pub proof fn lemma_marked_of_uniform(s: Seq<char>, m: Mark, other: Mark)
    requires
        all_marked(s, m),
    ensures
        marked(s, m) == s,
        other != m ==> marked(s, other) == Seq::<char>::empty(),
    decreases s.len(),
{
    reveal(all_marked);
    reveal(marked);
    if s.len() == 0 {
        assert(s.filter(|c: char| mark_of(c) == m) =~= s);
        assert(s.filter(|c: char| mark_of(c) == other) =~= s);
    } else {
        let init = s.drop_last();
        lemma_marked_of_uniform(init, m, other);
        assert(init.push(s.last()) =~= s);
        init.lemma_filter_push(s.last(), |c: char| mark_of(c) == m);
        init.lemma_filter_push(s.last(), |c: char| mark_of(c) == other);
    }
}

/// The choice of a mark from a token in three parts, each of one mark.
proof fn lemma_marks_of_parts(pre: Seq<char>, core: Seq<char>, post: Seq<char>, m: Mark)
    requires
        all_marked(pre, Mark::Leading),
        all_marked(core, Mark::Letter),
        all_marked(post, Mark::Trailing),
    ensures
        m == Mark::Leading ==> marked(pre + core + post, m) == pre,
        m == Mark::Letter ==> marked(pre + core + post, m) == core,
        m == Mark::Trailing ==> marked(pre + core + post, m) == post,
{
    reveal(marked);
    let pred = |c: char| mark_of(c) == m;
    Seq::filter_distributes_over_add(pre + core, post, pred);
    Seq::filter_distributes_over_add(pre, core, pred);
    lemma_marked_of_uniform(pre, Mark::Leading, m);
    lemma_marked_of_uniform(core, Mark::Letter, m);
    lemma_marked_of_uniform(post, Mark::Trailing, m);
    assert(marked(pre + core + post, m) == marked(pre, m) + marked(core, m) + marked(post, m));
    let e = Seq::<char>::empty();
    assert(pre + e + e =~= pre);
    assert(e + core + e =~= core);
    assert(e + e + post =~= post);
}

/// The rendering of a token whose three choices of marks are known.
proof fn lemma_rendered_from_choices(
    dict: Dictionary,
    token: Seq<char>,
    pre: Seq<char>,
    core: Seq<char>,
    post: Seq<char>,
)
    requires
        marked(token, Mark::Leading) == pre,
        marked(token, Mark::Letter) == core,
        marked(token, Mark::Trailing) == post,
    ensures
        clean_core(token) == core,
        rendered_token(dict, token) == pre + body(candidates(dict, core), core) + post,
{
}

/// Punctuation comes back round the rendered core: a token made of
/// leading marks, a core without punctuation and trailing marks is looked
/// up by that core alone and rendered with the same marks before and after
/// the rendered core.
pub proof fn lemma_punctuation_round_trip(
    dict: Dictionary,
    token: Seq<char>,
    pre: Seq<char>,
    core: Seq<char>,
    post: Seq<char>,
)
    requires
        token == pre + core + post,
        all_marked(pre, Mark::Leading),
        all_marked(core, Mark::Letter),
        all_marked(post, Mark::Trailing),
    ensures
        marked(token, Mark::Leading) == pre,
        clean_core(token) == core,
        marked(token, Mark::Trailing) == post,
        rendered_token(dict, token) == pre + body(candidates(dict, core), core) + post,
{
    lemma_marks_of_parts(pre, core, post, Mark::Leading);
    lemma_marks_of_parts(pre, core, post, Mark::Letter);
    lemma_marks_of_parts(pre, core, post, Mark::Trailing);
    lemma_rendered_from_choices(dict, token, pre, core, post);
}

/// A punctuation character put anywhere into a token leaves the clean core
/// as it was and joins the characters of its own mark at its place among
/// them.
pub proof fn lemma_punctuation_inserted(head: Seq<char>, c: char, tail: Seq<char>)
    requires
        mark_of(c) != Mark::Letter,
    ensures
        clean_core(head + seq![c] + tail) == clean_core(head + tail),
        marked(head + seq![c] + tail, mark_of(c)) == marked(head, mark_of(c)) + seq![c] + marked(
            tail,
            mark_of(c),
        ),
{
    reveal(marked);
    let one = seq![c];
    assert(all_marked(one, mark_of(c))) by {
        reveal(all_marked);
    }
    lemma_marked_of_uniform(one, mark_of(c), Mark::Letter);
    let letter = |c: char| mark_of(c) == Mark::Letter;
    Seq::filter_distributes_over_add(head + one, tail, letter);
    Seq::filter_distributes_over_add(head, one, letter);
    Seq::filter_distributes_over_add(head, tail, letter);
    assert(marked(head, Mark::Letter) + Seq::<char>::empty() =~= marked(head, Mark::Letter));
    let m = mark_of(c);
    let same = |x: char| mark_of(x) == m;
    Seq::filter_distributes_over_add(head + one, tail, same);
    Seq::filter_distributes_over_add(head, one, same);
}

} // verus!
