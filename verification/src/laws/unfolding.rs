//! Trimming and unfolding.

use crate::text::{
    cut, joined, lemma_cut, lemma_cut_is, lemma_filter_push, lemma_trimmed_end_shape,
    lemma_trimmed_start_shape, not_empty, pieces, trimmed, trimmed_start, trimming, white_space,
    Separator,
};
use crate::unsubscribe::unfolded;
use vstd::prelude::*;

verus! {

/// A text that starts and ends with something else than white space.
pub proof fn lemma_trimmed_fixed(s: Seq<char>)
    requires
        s.len() > 0 ==> !white_space(s[0]) && !white_space(s.last()),
    ensures
        trimmed(s) == s,
{
}

pub proof fn lemma_trimmed_ends(s: Seq<char>)
    ensures
        trimmed(s).len() > 0 ==> !white_space(trimmed(s)[0]) && !white_space(trimmed(s).last()),
        exists|i: int, j: int| 0 <= i <= j <= s.len() && trimmed(s) == #[trigger] s.subrange(i, j),
{
    lemma_trimmed_start_shape(s);
    let rest = trimmed_start(s);
    lemma_trimmed_end_shape(rest);
    let i = s.len() - rest.len();
    let n = trimmed(s).len() as int;
    assert(trimmed(s) == s.subrange(i, i + n));
}

/// Trimming a trimmed text changes nothing.
pub proof fn trimming_again_changes_nothing(s: Seq<char>)
    ensures
        trimmed(trimmed(s)) == trimmed(s),
{
    lemma_trimmed_ends(s);
    lemma_trimmed_fixed(trimmed(s));
}

/// A text of one line.
pub open spec fn one_line(s: Seq<char>) -> bool {
    forall|k: int| 0 <= k < s.len() ==> !Separator::LineBreak.parts(#[trigger] s[k])
}

pub proof fn lemma_pieces_have_no_separator(s: Seq<char>, sep: Separator)
    ensures
        forall|i: int, k: int|
            0 <= i < pieces(s, sep).len() && 0 <= k < pieces(s, sep)[i].len() ==> !sep.parts(
                #[trigger] pieces(s, sep)[i][k],
            ),
    decreases s.len(),
{
    lemma_cut(s, sep);
    let n = cut(s, sep) as int;
    if n < s.len() {
        let rest = s.skip(n + 1);
        lemma_pieces_have_no_separator(rest, sep);
        assert forall|i: int, k: int|
            0 <= i < pieces(s, sep).len() && 0 <= k < pieces(s, sep)[i].len() implies !sep.parts(
            #[trigger] pieces(s, sep)[i][k],
        ) by {
            if i == 0 {
                assert(pieces(s, sep)[0] == s.take(n));
                assert(s.take(n)[k] == s[k]);
            } else {
                assert(pieces(s, sep)[i] == pieces(rest, sep)[i - 1]);
            }
        }
    }
}

/// The lines that unfolding keeps: each of one line, trimmed and not empty.
proof fn lemma_kept_lines(lines: Seq<Seq<char>>)
    requires
        forall|i: int| 0 <= i < lines.len() ==> one_line(#[trigger] lines[i]),
    ensures
        ({
            let kept = lines.map_values(trimming()).filter(not_empty());
            forall|i: int|
                0 <= i < kept.len() ==> {
                    &&& one_line(#[trigger] kept[i])
                    &&& kept[i].len() > 0
                    &&& !white_space(kept[i][0])
                    &&& !white_space(kept[i].last())
                }
        }),
    decreases lines.len(),
{
    reveal(Seq::filter);
    if lines.len() > 0 {
        let earlier = lines.drop_last();
        assert(forall|i: int| 0 <= i < earlier.len() ==> earlier[i] == lines[i]);
        lemma_kept_lines(earlier);
        let all = lines.map_values(trimming());
        assert(all.drop_last() == earlier.map_values(trimming()));
        let line = lines.last();
        assert(all.last() == trimmed(line));
        lemma_trimmed_ends(line);
        let (i, j) = choose|i: int, j: int|
            0 <= i <= j <= line.len() && trimmed(line) == #[trigger] line.subrange(i, j);
        assert forall|k: int| 0 <= k < trimmed(line).len() implies !Separator::LineBreak.parts(
            #[trigger] trimmed(line)[k],
        ) by {
            assert(trimmed(line)[k] == line[i + k]);
        }
        assert(one_line(trimmed(line)));
        let kept = all.filter(not_empty());
        let had = earlier.map_values(trimming()).filter(not_empty());
        assert(kept == if trimmed(line).len() > 0 {
            had.push(trimmed(line))
        } else {
            had
        });
        assert forall|i: int| 0 <= i < kept.len() implies {
            &&& one_line(#[trigger] kept[i])
            &&& kept[i].len() > 0
            &&& !white_space(kept[i][0])
            &&& !white_space(kept[i].last())
        } by {
            if i < had.len() {
                assert(kept[i] == had[i]);
            } else {
                assert(kept[i] == trimmed(line));
            }
        }
    }
}

proof fn lemma_joined_shape(parts: Seq<Seq<char>>)
    requires
        forall|i: int|
            0 <= i < parts.len() ==> {
                &&& one_line(#[trigger] parts[i])
                &&& parts[i].len() > 0
                &&& !white_space(parts[i][0])
                &&& !white_space(parts[i].last())
            },
    ensures
        one_line(joined(parts, " "@)),
        parts.len() > 0 ==> joined(parts, " "@).len() > 0 && !white_space(joined(parts, " "@)[0])
            && !white_space(joined(parts, " "@).last()),
    decreases parts.len(),
{
    reveal_strlit(" ");
    if parts.len() > 1 {
        let earlier = parts.drop_last();
        assert(forall|i: int| 0 <= i < earlier.len() ==> earlier[i] == parts[i]);
        lemma_joined_shape(earlier);
        let start = joined(earlier, " "@);
        let all = joined(parts, " "@);
        assert(one_line(parts.last()));
        assert(all[0] == start[0]);
        assert(all.last() == parts.last().last());
        assert forall|k: int| 0 <= k < all.len() implies !Separator::LineBreak.parts(
            #[trigger] all[k],
        ) by {
            if k < start.len() {
                assert(all[k] == start[k]);
            } else if k > start.len() {
                assert(all[k] == parts.last()[k - start.len() - 1]);
            }
        }
    } else if parts.len() == 1 {
        assert(one_line(parts[0]));
    }
}

/// An unfolded value is one line, with no white space around it.
pub proof fn an_unfolded_value_is_one_line(value: Seq<char>)
    ensures
        one_line(unfolded(value)),
        trimmed(unfolded(value)) == unfolded(value),
{
    let lines = pieces(value, Separator::LineBreak);
    lemma_pieces_have_no_separator(value, Separator::LineBreak);
    assert forall|i: int| 0 <= i < lines.len() implies one_line(#[trigger] lines[i]) by {}
    lemma_kept_lines(lines);
    lemma_joined_shape(lines.map_values(trimming()).filter(not_empty()));
    lemma_trimmed_fixed(unfolded(value));
}

/// A value of one line unfolds to itself, trimmed.
pub proof fn a_value_of_one_line_is_trimmed(value: Seq<char>)
    requires
        one_line(value),
    ensures
        unfolded(value) == trimmed(value),
{
    reveal(Seq::filter);
    lemma_cut_is(value, Separator::LineBreak, value.len() as int);
    let lines = pieces(value, Separator::LineBreak);
    assert(lines == seq![value]);
    let all = lines.map_values(trimming());
    assert(all == seq![trimmed(value)]);
    assert(all.drop_last() == Seq::<Seq<char>>::empty());
    assert(all.drop_last().filter(not_empty()) == Seq::<Seq<char>>::empty());
    if trimmed(value).len() > 0 {
        assert(all.filter(not_empty()) == seq![trimmed(value)]);
    } else {
        assert(all.filter(not_empty()) == Seq::<Seq<char>>::empty());
        assert(trimmed(value) == Seq::<char>::empty());
    }
}

/// Unfolding an unfolded value changes nothing.
pub proof fn unfolding_again_changes_nothing(value: Seq<char>)
    ensures
        unfolded(unfolded(value)) == unfolded(value),
{
    an_unfolded_value_is_one_line(value);
    a_value_of_one_line_is_trimmed(unfolded(value));
}

/// The pieces of two texts with a separator between them.
pub proof fn lemma_pieces_add(a: Seq<char>, c: char, b: Seq<char>, sep: Separator)
    requires
        sep.parts(c),
    ensures
        pieces(a + seq![c] + b, sep) == pieces(a, sep) + pieces(b, sep),
    decreases a.len(),
{
    let all = a + seq![c] + b;
    let n = cut(a, sep) as int;
    lemma_cut(a, sep);
    assert forall|k: int| 0 <= k < n implies !sep.parts(#[trigger] all[k]) by {
        assert(all[k] == a[k]);
    }
    assert(sep.parts(all[n])) by {
        if n < a.len() {
            assert(all[n] == a[n]);
        } else {
            assert(all[n] == c);
        }
    }
    lemma_cut_is(all, sep, n);
    assert(all.take(n) == a.take(n));
    if n < a.len() {
        let rest = a.skip(n + 1);
        lemma_pieces_add(rest, c, b, sep);
        assert(all.skip(n + 1) == rest + seq![c] + b);
        assert(seq![a.take(n)] + (pieces(rest, sep) + pieces(b, sep)) == pieces(a, sep) + pieces(
            b,
            sep,
        ));
    } else {
        assert(all.skip(n + 1) == b);
        assert(a.take(n) == a);
        assert(pieces(a, sep) == seq![a]);
    }
}

/// The lines of a value that unfolding keeps, trimmed.
spec fn kept_lines(lines: Seq<Seq<char>>) -> Seq<Seq<char>> {
    lines.map_values(trimming()).filter(not_empty())
}

proof fn lemma_kept_lines_add(a: Seq<Seq<char>>, b: Seq<Seq<char>>)
    ensures
        kept_lines(a + b) == kept_lines(a) + kept_lines(b),
{
    assert((a + b).map_values(trimming()) == a.map_values(trimming()) + b.map_values(trimming()));
    Seq::filter_distributes_over_add(
        a.map_values(trimming()),
        b.map_values(trimming()),
        not_empty(),
    );
}

proof fn lemma_no_blank_line_kept()
    ensures
        kept_lines(seq![Seq::<char>::empty()]) == Seq::<Seq<char>>::empty(),
{
    let none = Seq::<char>::empty();
    reveal(Seq::filter);
    assert(trimmed(none) == none);
    assert(seq![none].map_values(trimming()) == seq![none]);
    assert(seq![none].drop_last() == Seq::<Seq<char>>::empty());
    assert(seq![none].drop_last().filter(not_empty()) == Seq::<Seq<char>>::empty());
}

/// The kept lines of two texts with a line break between them.
proof fn lemma_kept_lines_pair(a: Seq<char>, c: char, b: Seq<char>)
    requires
        Separator::LineBreak.parts(c),
    ensures
        kept_lines(pieces(a + seq![c] + b, Separator::LineBreak)) == kept_lines(
            pieces(a, Separator::LineBreak),
        ) + kept_lines(pieces(b, Separator::LineBreak)),
{
    lemma_pieces_add(a, c, b, Separator::LineBreak);
    lemma_kept_lines_add(pieces(a, Separator::LineBreak), pieces(b, Separator::LineBreak));
}

/// A line break at the start adds no line.
proof fn lemma_kept_lines_after_break(c: char, b: Seq<char>)
    requires
        Separator::LineBreak.parts(c),
    ensures
        kept_lines(pieces(seq![c] + b, Separator::LineBreak)) == kept_lines(
            pieces(b, Separator::LineBreak),
        ),
{
    let none = Seq::<char>::empty();
    assert(seq![c] + b == none + seq![c] + b);
    assert(pieces(none, Separator::LineBreak) == seq![none]);
    lemma_kept_lines_pair(none, c, b);
    lemma_no_blank_line_kept();
    assert(kept_lines(seq![none]) + kept_lines(pieces(b, Separator::LineBreak)) == kept_lines(
        pieces(b, Separator::LineBreak),
    ));
}

/// A line that ends in a carriage return and a line feed unfolds as one that ends
/// in the line feed alone.
pub proof fn both_line_ends_unfold_alike(start: Seq<char>, rest: Seq<char>)
    ensures
        unfolded(start + seq!['\r', '\n'] + rest) == unfolded(start + seq!['\n'] + rest),
{
    let middle = seq!['\n'] + rest;
    assert(start + seq!['\r', '\n'] + rest == start + seq!['\r'] + middle);
    lemma_kept_lines_pair(start, '\r', middle);
    lemma_kept_lines_pair(start, '\n', rest);
    lemma_kept_lines_after_break('\n', rest);
}

/// The text with each carriage return that a line feed follows taken out.
pub open spec fn with_line_feeds(s: Seq<char>) -> Seq<char>
    decreases s.len(),
{
    if s.len() == 0 {
        s
    } else if s.len() > 1 && s[0] == '\r' && s[1] == '\n' {
        seq!['\n'] + with_line_feeds(s.skip(2))
    } else {
        seq![s[0]] + with_line_feeds(s.skip(1))
    }
}

/// A line without a break before the rest of a text stays as it is.
proof fn lemma_line_feeds_after_line(line: Seq<char>, rest: Seq<char>)
    requires
        one_line(line),
    ensures
        with_line_feeds(line + rest) == line + with_line_feeds(rest),
    decreases line.len(),
{
    let all = line + rest;
    if line.len() > 0 {
        let shorter = line.skip(1);
        assert forall|k: int| 0 <= k < shorter.len() implies !Separator::LineBreak.parts(
            #[trigger] shorter[k],
        ) by {
            assert(shorter[k] == line[k + 1]);
        }
        lemma_line_feeds_after_line(shorter, rest);
        assert(!Separator::LineBreak.parts(line[0]));
        assert(all[0] == line[0]);
        assert(all.skip(1) == shorter + rest);
        assert(seq![line[0]] + (shorter + with_line_feeds(rest)) == line + with_line_feeds(rest));
    } else {
        assert(all == rest);
        assert(line + with_line_feeds(rest) == with_line_feeds(rest));
    }
}

proof fn lemma_line_feeds_keep_lines(s: Seq<char>)
    ensures
        kept_lines(pieces(with_line_feeds(s), Separator::LineBreak)) == kept_lines(
            pieces(s, Separator::LineBreak),
        ),
    decreases s.len(),
{
    let sep = Separator::LineBreak;
    let n = cut(s, sep) as int;
    lemma_cut(s, sep);
    let line = s.take(n);
    assert forall|k: int| 0 <= k < line.len() implies !sep.parts(#[trigger] line[k]) by {
        assert(line[k] == s[k]);
    }
    let rest = s.skip(n);
    assert(s == line + rest);
    lemma_line_feeds_after_line(line, rest);
    if n < s.len() {
        let c = s[n];
        let after = rest.skip(1);
        assert(rest[0] == c);
        assert(s == line + seq![c] + after);
        lemma_kept_lines_pair(line, c, after);
        if rest.len() > 1 && c == '\r' && rest[1] == '\n' {
            let more = rest.skip(2);
            assert(after == seq!['\n'] + more);
            lemma_line_feeds_keep_lines(more);
            lemma_kept_lines_after_break('\n', more);
            assert(with_line_feeds(s) == line + seq!['\n'] + with_line_feeds(more));
            lemma_kept_lines_pair(line, '\n', with_line_feeds(more));
        } else {
            lemma_line_feeds_keep_lines(after);
            assert(with_line_feeds(s) == line + seq![c] + with_line_feeds(after));
            lemma_kept_lines_pair(line, c, with_line_feeds(after));
        }
    } else {
        assert(rest == Seq::<char>::empty());
        assert(with_line_feeds(s) == s);
    }
}

/// A value unfolds the same with every carriage return and line feed made a line
/// feed alone.
pub proof fn line_feeds_alone_unfold_alike(value: Seq<char>)
    ensures
        unfolded(with_line_feeds(value)) == unfolded(value),
{
    lemma_line_feeds_keep_lines(value);
}

/// The lines on both sides of a line break are unfolded on their own, with one space
/// between them where neither is blank.
pub proof fn a_line_break_becomes_one_space(a: Seq<char>, c: char, b: Seq<char>)
    requires
        c == '\r' || c == '\n',
    ensures
        unfolded(a + seq![c] + b) == if unfolded(a).len() == 0 {
            unfolded(b)
        } else if unfolded(b).len() == 0 {
            unfolded(a)
        } else {
            unfolded(a) + seq![' '] + unfolded(b)
        },
{
    reveal_strlit(" ");
    assert(" "@ == seq![' ']);
    let lines_a = pieces(a, Separator::LineBreak);
    let lines_b = pieces(b, Separator::LineBreak);
    lemma_kept_lines_pair(a, c, b);
    lemma_kept_some(a);
    lemma_kept_some(b);
    let kept_a = kept_lines(lines_a);
    let kept_b = kept_lines(lines_b);
    if kept_a.len() == 0 {
        assert(kept_a + kept_b == kept_b);
    } else if kept_b.len() == 0 {
        assert(kept_a + kept_b == kept_a);
    } else {
        lemma_joined_add(kept_a, kept_b, " "@);
    }
}

/// Something is left of a value where some line of it is kept.
proof fn lemma_kept_some(value: Seq<char>)
    ensures
        unfolded(value).len() == 0 <==> kept_lines(pieces(value, Separator::LineBreak)).len() == 0,
{
    let lines = pieces(value, Separator::LineBreak);
    lemma_pieces_have_no_separator(value, Separator::LineBreak);
    assert forall|i: int| 0 <= i < lines.len() implies one_line(#[trigger] lines[i]) by {}
    lemma_kept_lines(lines);
    lemma_joined_shape(kept_lines(lines));
}

pub proof fn lemma_joined_add(a: Seq<Seq<char>>, b: Seq<Seq<char>>, sep: Seq<char>)
    requires
        a.len() > 0,
        b.len() > 0,
    ensures
        joined(a + b, sep) == joined(a, sep) + sep + joined(b, sep),
    decreases b.len(),
{
    let shorter = b.drop_last();
    assert((a + b).drop_last() == a + shorter);
    assert((a + b).last() == b.last());
    if shorter.len() > 0 {
        lemma_joined_add(a, shorter, sep);
        assert(joined(a, sep) + sep + joined(shorter, sep) + sep + b.last() == joined(a, sep) + sep
            + (joined(shorter, sep) + sep + b.last()));
    } else {
        assert(a + shorter == a);
    }
}

/// A text of nothing but white space.
pub open spec fn blank(s: Seq<char>) -> bool {
    forall|k: int| 0 <= k < s.len() ==> white_space(#[trigger] s[k])
}

/// Trimming leaves nothing of a text exactly where it is all white space.
pub proof fn nothing_is_left_of_white_space(s: Seq<char>)
    ensures
        trimmed(s).len() == 0 <==> blank(s),
{
    lemma_trimmed_start_shape(s);
    let rest = trimmed_start(s);
    let m = s.len() - rest.len();
    lemma_trimmed_end_shape(rest);
    let n = trimmed(s).len() as int;
    if n == 0 {
        assert forall|k: int| 0 <= k < s.len() implies white_space(#[trigger] s[k]) by {
            if k >= m {
                assert(rest[k - m] == s[k]);
            }
        }
    } else {
        assert(rest[n - 1] == s[m + n - 1]);
    }
}

/// A text is blank where each of its lines is.
proof fn lemma_blank_lines(s: Seq<char>)
    ensures
        blank(s) <==> forall|i: int|
            0 <= i < pieces(s, Separator::LineBreak).len() ==> blank(
                #[trigger] pieces(s, Separator::LineBreak)[i],
            ),
    decreases s.len(),
{
    let sep = Separator::LineBreak;
    let n = cut(s, sep) as int;
    let lines = pieces(s, sep);
    lemma_cut(s, sep);
    if n < s.len() {
        let line = s.take(n);
        let rest = s.skip(n + 1);
        lemma_blank_lines(rest);
        assert(lines[0] == line);
        assert(forall|i: int| 0 < i < lines.len() ==> lines[i] == pieces(rest, sep)[i - 1]);
        assert(white_space(s[n]));
        if blank(s) {
            assert forall|k: int| 0 <= k < line.len() implies white_space(#[trigger] line[k]) by {
                assert(line[k] == s[k]);
            }
            assert forall|k: int| 0 <= k < rest.len() implies white_space(#[trigger] rest[k]) by {
                assert(rest[k] == s[n + 1 + k]);
            }
            assert forall|i: int| 0 <= i < lines.len() implies blank(#[trigger] lines[i]) by {
                if i > 0 {
                    assert(blank(pieces(rest, sep)[i - 1]));
                }
            }
        }
        if forall|i: int| 0 <= i < lines.len() ==> blank(#[trigger] lines[i]) {
            assert(blank(lines[0]));
            assert forall|i: int| 0 <= i < pieces(rest, sep).len() implies blank(
                #[trigger] pieces(rest, sep)[i],
            ) by {
                assert(lines[i + 1] == pieces(rest, sep)[i]);
            }
            assert forall|k: int| 0 <= k < s.len() implies white_space(#[trigger] s[k]) by {
                if k < n {
                    assert(line[k] == s[k]);
                } else if k > n {
                    assert(rest[k - n - 1] == s[k]);
                }
            }
        }
    } else {
        assert(lines == seq![s]);
        assert(lines[0] == s);
    }
}

/// No line is kept where each is blank.
proof fn lemma_nothing_kept(lines: Seq<Seq<char>>)
    ensures
        kept_lines(lines).len() == 0 <==> forall|i: int|
            0 <= i < lines.len() ==> blank(#[trigger] lines[i]),
    decreases lines.len(),
{
    if lines.len() > 0 {
        let earlier = lines.drop_last();
        let last = lines.last();
        lemma_nothing_kept(earlier);
        nothing_is_left_of_white_space(last);
        let all = lines.map_values(trimming());
        assert(all == earlier.map_values(trimming()).push(trimmed(last)));
        lemma_filter_push(earlier.map_values(trimming()), trimmed(last), not_empty());
        assert(lines[lines.len() - 1] == last);
        assert(forall|i: int| 0 <= i < earlier.len() ==> earlier[i] == lines[i]);
        if forall|i: int| 0 <= i < earlier.len() ==> blank(#[trigger] earlier[i]) {
            assert forall|i: int| 0 <= i < lines.len() && blank(last) implies blank(
                #[trigger] lines[i],
            ) by {
                if i < earlier.len() {
                    assert(blank(earlier[i]));
                }
            }
        } else {
            let i = choose|i: int| 0 <= i < earlier.len() && !blank(#[trigger] earlier[i]);
            assert(!blank(lines[i]));
        }
    } else {
        assert(kept_lines(lines) == Seq::<Seq<char>>::empty()) by {
            reveal(Seq::filter);
        }
    }
}

/// An unfolded value is empty exactly where the trimmed value is.
pub proof fn only_a_blank_value_unfolds_to_nothing(value: Seq<char>)
    ensures
        unfolded(value).len() == 0 <==> trimmed(value).len() == 0,
{
    let lines = pieces(value, Separator::LineBreak);
    lemma_pieces_have_no_separator(value, Separator::LineBreak);
    assert forall|i: int| 0 <= i < lines.len() implies one_line(#[trigger] lines[i]) by {}
    lemma_kept_lines(lines);
    lemma_joined_shape(kept_lines(lines));
    nothing_is_left_of_white_space(value);
    lemma_blank_lines(value);
    lemma_nothing_kept(lines);
}

/// A fold between two parts of a value becomes one space.
pub proof fn a_fold_becomes_one_space(start: Seq<char>, rest: Seq<char>)
    requires
        one_line(start),
        one_line(rest),
        trimmed(start).len() > 0,
        trimmed(rest).len() > 0,
    ensures
        unfolded(start + seq!['\r', '\n'] + rest) == trimmed(start) + " "@ + trimmed(rest),
{
    let sep = Separator::LineBreak;
    let value = start + seq!['\r', '\n'] + rest;
    let n = start.len() as int;
    let middle = seq!['\n'] + rest;
    assert forall|k: int| 0 <= k < n implies !sep.parts(#[trigger] value[k]) by {
        assert(value[k] == start[k]);
    }
    assert(value[n] == '\r');
    lemma_cut_is(value, sep, n);
    assert(value.take(n) == start);
    assert(value.skip(n + 1) == middle);
    assert(middle[0] == '\n');
    lemma_cut_is(middle, sep, 0);
    assert(middle.take(0) == Seq::<char>::empty());
    assert(middle.skip(1) == rest);
    lemma_cut_is(rest, sep, rest.len() as int);
    assert(pieces(rest, sep) == seq![rest]);
    assert(pieces(middle, sep) == seq![Seq::<char>::empty(), rest]);
    let lines = pieces(value, sep);
    assert(lines == seq![start, Seq::<char>::empty(), rest]);
    let none = Seq::<Seq<char>>::empty();
    assert(none.filter(not_empty()) == none) by {
        reveal(Seq::filter);
    }
    lemma_filter_push(none, trimmed(start), not_empty());
    lemma_filter_push(seq![trimmed(start)], Seq::<char>::empty(), not_empty());
    lemma_filter_push(
        seq![trimmed(start), Seq::<char>::empty()],
        trimmed(rest),
        not_empty(),
    );
    assert(none.push(trimmed(start)) == seq![trimmed(start)]);
    assert(seq![trimmed(start)].push(Seq::<char>::empty()) == seq![
        trimmed(start),
        Seq::<char>::empty(),
    ]);
    assert(lines.map_values(trimming()) == seq![trimmed(start), Seq::<char>::empty()].push(
        trimmed(rest),
    ));
    let kept = lines.map_values(trimming()).filter(not_empty());
    assert(kept == seq![trimmed(start), trimmed(rest)]);
    assert(kept.drop_last() == seq![trimmed(start)]);
    assert(joined(kept.drop_last(), " "@) == trimmed(start));
}

} // verus!
