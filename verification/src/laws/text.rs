//! What cutting, trimming, searching and joining give back of texts that were put together.
use vstd::prelude::*;

use crate::text::{
    begins, has, is_white, is_word, join, lemma_run_back, lemma_run_is, lines, run_back, stands_at,
    trim, trim_end, words, Class,
};
use crate::text::law_lines_add;

verus! {

/// Whether all characters of `s` are white space.
pub open spec fn all_white(s: Seq<char>) -> bool {
    forall|i: int| 0 <= i < s.len() ==> is_white(#[trigger] s[i])
}

/// Whether no line feed stands in `s`.
pub open spec fn on_one_line(s: Seq<char>) -> bool {
    forall|i: int| 0 <= i < s.len() ==> #[trigger] s[i] != '\n'
}

/// The text of the lines: each of them with a line feed behind it.
pub open spec fn written(ls: Seq<Seq<char>>) -> Seq<char>
    decreases ls.len(),
{
    if ls.len() == 0 {
        Seq::empty()
    } else {
        written(ls.drop_last()) + ls.last() + seq!['\n']
    }
}

/// A text without line feed is one line, unless it is empty. With a line feed behind it, or a
/// carriage return and a line feed, it is one line as well, and neither belongs to the line.
pub proof fn law_one_line(l: Seq<char>)
    requires
        on_one_line(l),
    ensures
        l.len() > 0 ==> lines(l) == seq![l],
        l.len() == 0 || l.last() != '\r' ==> lines(l + seq!['\n']) == seq![l],
        lines(l + seq!['\r', '\n']) == seq![l],
{
    let k = Class::IsNot('\n');
    assert forall|i: int| 0 <= i < l.len() implies k.holds(#[trigger] l[i]) by {}
    lemma_run_is(l, k, l.len());
    let s = l + seq!['\n'];
    assert forall|i: int| 0 <= i < l.len() implies k.holds(#[trigger] s[i]) by {
        assert(s[i] == l[i]);
    }
    lemma_run_is(s, k, l.len());
    assert(s.take(l.len() as int) =~= l);
    assert(lines(s.skip(l.len() as int + 1)) =~= Seq::empty());
    let t = l + seq!['\r', '\n'];
    assert forall|i: int| 0 <= i < l.len() + 1 implies k.holds(#[trigger] t[i]) by {
        if i < l.len() {
            assert(t[i] == l[i]);
        }
    }
    lemma_run_is(t, k, l.len() + 1);
    assert(t.take(l.len() as int + 1).drop_last() =~= l);
    assert(lines(t.skip(l.len() as int + 2)) =~= Seq::empty());
    if l.len() == 0 || l.last() != '\r' {
        assert(lines(s) =~= seq![l]);
    }
    assert(lines(t) =~= seq![l]);
}

/// Lines that are written one behind the other are read back as they were, however many there
/// are and however long.
pub proof fn law_lines_of_written(ls: Seq<Seq<char>>)
    requires
        forall|i: int|
            0 <= i < ls.len() ==> on_one_line(#[trigger] ls[i]) && (ls[i].len() > 0 ==> ls[i].last()
                != '\r'),
    ensures
        lines(written(ls)) == ls,
        ls.len() > 0 ==> written(ls).len() > 0 && written(ls).last() == '\n',
    decreases ls.len(),
{
    if ls.len() == 0 {
        assert(lines(written(ls)) =~= ls);
    } else {
        let front = ls.drop_last();
        assert forall|i: int| 0 <= i < front.len() implies on_one_line(#[trigger] front[i]) && (
        front[i].len() > 0 ==> front[i].last() != '\r') by {
            assert(front[i] == ls[i]);
        }
        law_lines_of_written(front);
        let l = ls[ls.len() - 1];
        law_one_line(l);
        if front.len() == 0 {
            assert(written(front) =~= Seq::empty());
        }
        law_lines_add(written(front), l + seq!['\n']);
        assert(written(ls) =~= written(front) + (l + seq!['\n']));
        assert(front + seq![l] =~= ls);
    }
}

/// White space alone has no words.
pub proof fn law_no_words(s: Seq<char>)
    requires
        all_white(s),
    ensures
        words(s) == Seq::<Seq<char>>::empty(),
{
    assert forall|i: int| 0 <= i < s.len() implies Class::White.holds(#[trigger] s[i]) by {}
    lemma_run_is(s, Class::White, s.len());
    assert(words(s) =~= Seq::empty());
}

/// A word alone is its only word, however long it is.
pub proof fn law_one_word(w: Seq<char>)
    requires
        is_word(w),
    ensures
        words(w) == seq![w],
{
    crate::text::lemma_words_of_word(w);
}

/// White space between two texts, whichever and however much, parts their words and adds none.
pub proof fn law_words_apart(a: Seq<char>, gap: Seq<char>, b: Seq<char>)
    requires
        gap.len() > 0,
        all_white(gap),
    ensures
        words(a + gap + b) == words(a) + words(b),
    decreases gap.len(),
{
    let c = gap.last();
    let front = gap.drop_last();
    crate::text::lemma_words_apart(a + front, c, b);
    assert(a + front + seq![c] + b =~= a + gap + b);
    assert forall|i: int| 0 <= i < front.len() implies is_white(#[trigger] front[i]) by {
        assert(front[i] == gap[i]);
    }
    if front.len() > 0 {
        let none = Seq::<char>::empty();
        law_words_apart(a, front, none);
        law_no_words(none);
        assert(a + front + none =~= a + front);
        assert(words(a) + words(none) =~= words(a));
    } else {
        assert(a + front =~= a);
    }
}

/// White space before and behind a text does not change its words.
pub proof fn law_words_within(before: Seq<char>, s: Seq<char>, behind: Seq<char>)
    requires
        all_white(before),
        all_white(behind),
    ensures
        words(before + s + behind) == words(s),
{
    let none = Seq::<char>::empty();
    law_no_words(none);
    if before.len() > 0 {
        law_words_apart(none, before, s);
        assert(none + before + s =~= before + s);
        assert(words(none) + words(s) =~= words(s));
    } else {
        assert(before + s =~= s);
    }
    if behind.len() > 0 {
        law_words_apart(before + s, behind, none);
        assert(before + s + behind + none =~= before + s + behind);
        assert(words(before + s) + words(none) =~= words(before + s));
    } else {
        assert(before + s + behind =~= before + s);
    }
}

/// Trimming takes the white space off both ends, and nothing else.
pub proof fn law_trim(before: Seq<char>, s: Seq<char>, behind: Seq<char>)
    requires
        all_white(before),
        all_white(behind),
        s.len() > 0 ==> !is_white(s[0]) && !is_white(s.last()),
    ensures
        trim(before + s + behind) == s,
{
    let t = before + s + behind;
    let k = Class::White;
    if s.len() == 0 {
        assert forall|i: int| 0 <= i < t.len() implies k.holds(#[trigger] t[i]) by {
            if i < before.len() {
                assert(t[i] == before[i]);
            } else {
                assert(t[i] == behind[i - before.len()]);
            }
        }
        lemma_run_is(t, k, t.len());
        assert(trim(t) =~= s);
    } else {
        assert forall|i: int| 0 <= i < before.len() implies k.holds(#[trigger] t[i]) by {
            assert(t[i] == before[i]);
        }
        assert(t[before.len() as int] == s[0]);
        lemma_run_is(t, k, before.len());
        assert(t.skip(before.len() as int) =~= s + behind);
        law_trim_end(s, behind, k);
    }
}

/// Trimming the end takes the characters of the class off it, and nothing else.
pub proof fn law_trim_end(s: Seq<char>, behind: Seq<char>, k: Class)
    requires
        forall|i: int| 0 <= i < behind.len() ==> k.holds(#[trigger] behind[i]),
        s.len() > 0 ==> !k.holds(s.last()),
    ensures
        trim_end(s + behind, k) == s,
{
    let t = s + behind;
    let n = run_back(t, k);
    lemma_run_back(t, k);
    if n > behind.len() {
        assert(t[s.len() - 1] == s.last());
    } else if n < behind.len() {
        assert(t[t.len() - 1 - n] == behind[behind.len() - 1 - n]);
    }
    assert(trim_end(t, k) =~= s);
}

/// A text begins with what it was begun with, and with nothing else.
pub proof fn law_begins(s: Seq<char>, pat: Seq<char>, rest: Seq<char>)
    ensures
        begins(pat + rest, pat),
        begins(s, pat) ==> s == pat + s.skip(pat.len() as int),
{
    assert((pat + rest).subrange(0, pat.len() as int) =~= pat);
    if begins(s, pat) {
        assert(s.subrange(0, pat.len() as int) + s.skip(pat.len() as int) =~= s);
    }
}

/// A text holds what was put into it, and what it holds parts it in two.
pub proof fn law_has(s: Seq<char>, a: Seq<char>, pat: Seq<char>, b: Seq<char>)
    ensures
        has(a + pat + b, pat),
        has(s, pat) ==> exists|i: int|
            0 <= i <= s.len() && s == #[trigger] s.take(i) + pat + s.skip(i + pat.len()),
{
    let t = a + pat + b;
    assert(t.subrange(a.len() as int, (a.len() + pat.len()) as int) =~= pat);
    assert(stands_at(t, pat, a.len() as int));
    if has(s, pat) {
        let i = choose|i: int| stands_at(s, pat, i);
        assert(s.take(i) + s.subrange(i, i + pat.len()) + s.skip(i + pat.len()) =~= s);
        assert(s == s.take(i) + pat + s.skip(i + pat.len()));
    }
}

/// Parts joined in two goes are the parts joined in one, with the separator once between each
/// two of them; a single part is left as it is.
pub proof fn law_join(a: Seq<Seq<char>>, b: Seq<Seq<char>>, part: Seq<char>, sep: Seq<char>)
    ensures
        join(Seq::empty(), sep) == Seq::<char>::empty(),
        join(seq![part], sep) == part,
        a.len() > 0 && b.len() > 0 ==> join(a + b, sep) == join(a, sep) + sep + join(b, sep),
    decreases b.len(),
{
    if a.len() > 0 && b.len() > 0 {
        let front = b.drop_last();
        assert((a + b).drop_last() =~= a + front);
        assert((a + b).last() == b.last());
        if front.len() == 0 {
            assert(a + front =~= a);
        } else {
            law_join(a, front, part, sep);
            assert(join(a, sep) + sep + join(front, sep) + sep + b.last() =~= join(a, sep) + sep + (
            join(front, sep) + sep + b.last()));
        }
    }
}

} // verus!
