//! Text as a sequence of characters: classes of characters, runs, lines, words, trimming,
//! searching and joining.
use vstd::prelude::*;

verus! {

/// `String::push` puts one character behind those that the string holds.
pub assume_specification[ String::push ](s: &mut String, c: char)
    ensures
        final(s)@ == old(s)@.push(c),
;

/// The characters with the Unicode property White_Space.
pub open spec fn is_white(c: char) -> bool {
    let u = c as u32;
    ||| 0x9 <= u <= 0xD
    ||| u == 0x20
    ||| u == 0x85
    ||| u == 0xA0
    ||| u == 0x1680
    ||| 0x2000 <= u <= 0x200A
    ||| u == 0x2028
    ||| u == 0x2029
    ||| u == 0x202F
    ||| u == 0x205F
    ||| u == 0x3000
}

/// A class of characters, by which text is cut.
#[derive(Clone, Copy, Debug, PartialEq, Eq)]
pub enum Class {
    /// White space.
    White,
    /// All but white space.
    Ink,
    /// The one character.
    Is(char),
    /// All but the one character.
    IsNot(char),
}

impl Class {
    /// Whether `c` is of the class.
    pub open spec fn holds(self, c: char) -> bool {
        match self {
            Class::White => is_white(c),
            Class::Ink => !is_white(c),
            Class::Is(x) => c == x,
            Class::IsNot(x) => c != x,
        }
    }

    /// Decides whether `c` is of the class.
    pub fn has(self, c: char) -> (r: bool)
        ensures
            r == self.holds(c),
    {
        match self {
            Class::White => white(c),
            Class::Ink => !white(c),
            Class::Is(x) => c == x,
            Class::IsNot(x) => c != x,
        }
    }
}

/// Decides whether `c` is white space.
pub fn white(c: char) -> (r: bool)
    ensures
        r == is_white(c),
{
    let u: u32 = c as u32;
    (0x9 <= u && u <= 0xD) || u == 0x20 || u == 0x85 || u == 0xA0 || u == 0x1680 || (0x2000 <= u
        && u <= 0x200A) || u == 0x2028 || u == 0x2029 || u == 0x202F || u == 0x205F || u == 0x3000
}

/// The characters of `s`, in order.
pub fn chars(s: &str) -> (r: Vec<char>)
    ensures
        r@ == s@,
{
    let mut r: Vec<char> = Vec::new();
    for c in it: s.chars()
        invariant
            r@ == it.seq().take(it.index()),
            it.seq() == s@,
    {
        r.push(c);
    }
    r
}

/// The string made of the characters `v`, in order.
pub fn string(v: &[char]) -> (r: String)
    ensures
        r@ == v@,
{
    let mut r = String::new();
    for i in 0..v.len()
        invariant
            r@ == v@.take(i as int),
    {
        r.push(v[i]);
    }
    assert(v@.take(v@.len() as int) == v@);
    r
}

/// The characters of `s` from position `from` up to, and without, position `to`.
pub fn slice(s: &[char], from: usize, to: usize) -> (r: Vec<char>)
    requires
        from <= to <= s@.len(),
    ensures
        r@ == s@.subrange(from as int, to as int),
{
    let mut r: Vec<char> = Vec::new();
    for i in from..to
        invariant
            from <= i <= to <= s@.len(),
            r@ == s@.subrange(from as int, i as int),
    {
        r.push(s[i]);
        assert(s@.subrange(from as int, i + 1) =~= s@.subrange(from as int, i as int).push(
            s@[i as int],
        ));
    }
    r
}

/// How many characters at the start of `s` are of class `k`, up to the first that is not.
pub open spec fn run(s: Seq<char>, k: Class) -> nat
    decreases s.len(),
{
    if s.len() > 0 && k.holds(s[0]) {
        1 + run(s.skip(1), k)
    } else {
        0
    }
}

/// How many characters at the end of `s` are of class `k`, back to the last that is not.
pub open spec fn run_back(s: Seq<char>, k: Class) -> nat
    decreases s.len(),
{
    if s.len() > 0 && k.holds(s.last()) {
        1 + run_back(s.drop_last(), k)
    } else {
        0
    }
}

/// A run is as long as the text at most, holds only the class, and ends where the class ends.
pub proof fn lemma_run(s: Seq<char>, k: Class)
    ensures
        run(s, k) <= s.len(),
        forall|i: int| 0 <= i < run(s, k) ==> k.holds(#[trigger] s[i]),
        run(s, k) < s.len() ==> !k.holds(s[run(s, k) as int]),
    decreases s.len(),
{
    if s.len() > 0 && k.holds(s[0]) {
        let t = s.skip(1);
        lemma_run(t, k);
        assert forall|i: int| 0 <= i < run(s, k) implies k.holds(#[trigger] s[i]) by {
            if i > 0 {
                assert(s[i] == t[i - 1]);
            }
        }
    }
}

/// A run is pinned down by its characters and by the one behind it.
pub proof fn lemma_run_is(s: Seq<char>, k: Class, n: nat)
    requires
        n <= s.len(),
        forall|i: int| 0 <= i < n ==> k.holds(#[trigger] s[i]),
        n < s.len() ==> !k.holds(s[n as int]),
    ensures
        run(s, k) == n,
    decreases n,
{
    if n > 0 {
        let t = s.skip(1);
        assert(k.holds(s[0]));
        assert forall|i: int| 0 <= i < n - 1 implies k.holds(#[trigger] t[i]) by {
            assert(t[i] == s[i + 1]);
        }
        lemma_run_is(t, k, (n - 1) as nat);
    }
}

/// A run at the end is as long as the text at most, and the character before it is of
/// another class.
pub proof fn lemma_run_back(s: Seq<char>, k: Class)
    ensures
        run_back(s, k) <= s.len(),
        run_back(s, k) < s.len() ==> !k.holds(s[s.len() - 1 - run_back(s, k)]),
        forall|i: int| s.len() - run_back(s, k) <= i < s.len() ==> k.holds(#[trigger] s[i]),
    decreases s.len(),
{
    if s.len() > 0 && k.holds(s.last()) {
        lemma_run_back(s.drop_last(), k);
        assert forall|i: int| s.len() - run_back(s, k) <= i < s.len() implies k.holds(
            #[trigger] s[i],
        ) by {
            if i < s.len() - 1 {
                assert(s[i] == s.drop_last()[i]);
            }
        }
    }
}

/// The position behind the run of class `k` that starts at `from`.
pub fn span(s: &[char], from: usize, k: Class) -> (end: usize)
    requires
        from <= s@.len(),
    ensures
        from <= end <= s@.len(),
        end - from == run(s@.skip(from as int), k),
{
    let mut end: usize = from;
    while end < s.len() && k.has(s[end])
        invariant
            from <= end <= s@.len(),
            forall|i: int| from <= i < end ==> k.holds(#[trigger] s@[i]),
        decreases s@.len() - end,
    {
        end = end + 1;
    }
    proof {
        let t = s@.skip(from as int);
        assert forall|i: int| 0 <= i < end - from implies k.holds(#[trigger] t[i]) by {
            assert(t[i] == s@[from + i]);
        }
        lemma_run_is(t, k, (end - from) as nat);
    }
    end
}

/// The contents of a vector of vectors of characters.
pub open spec fn seqs(v: Seq<Vec<char>>) -> Seq<Seq<char>> {
    v.map_values(|x: Vec<char>| x@)
}

/// A line without the carriage return that may end it.
pub open spec fn without_cr(s: Seq<char>) -> Seq<char> {
    if s.len() > 0 && s.last() == '\r' {
        s.drop_last()
    } else {
        s
    }
}

/// The lines of `s`. A line feed ends a line; a carriage return right before it belongs to
/// the ending. The last line may lack the line feed, and then keeps all its characters.
pub open spec fn lines(s: Seq<char>) -> Seq<Seq<char>>
    decreases s.len(),
{
    let n = run(s, Class::IsNot('\n'));
    if s.len() == 0 {
        Seq::empty()
    } else if n >= s.len() {
        seq![s]
    } else {
        seq![without_cr(s.take(n as int))] + lines(s.skip(n as int + 1))
    }
}

/// Cuts text into its lines.
pub fn split_lines(s: &[char]) -> (r: Vec<Vec<char>>)
    ensures
        seqs(r@) == lines(s@),
{
    let mut r: Vec<Vec<char>> = Vec::new();
    let mut i: usize = 0;
    assert(s@.skip(0) == s@);
    assert(seqs(r@) + lines(s@) =~= lines(s@));
    while i < s.len()
        invariant
            i <= s@.len(),
            seqs(r@) + lines(s@.skip(i as int)) == lines(s@),
        decreases s@.len() - i,
    {
        let ghost rest = s@.skip(i as int);
        let ghost before = r@;
        let end: usize = span(s, i, Class::IsNot('\n'));
        let ghost n = run(rest, Class::IsNot('\n')) as int;
        assert(s@.subrange(i as int, end as int) =~= rest.take(n));
        if end < s.len() {
            let stop: usize = if end > i && s[end - 1] == '\r' { end - 1 } else { end };
            let line = slice(s, i, stop);
            assert(line@ =~= without_cr(rest.take(n)));
            r.push(line);
            i = end + 1;
            assert(s@.skip(i as int) =~= rest.skip(n + 1));
        } else {
            let line = slice(s, i, end);
            assert(line@ =~= rest);
            r.push(line);
            i = end;
            assert(lines(s@.skip(i as int)) =~= Seq::empty());
        }
        assert(seqs(r@) =~= seqs(before).push(r@.last()@));
        assert(seqs(r@) + lines(s@.skip(i as int)) =~= seqs(before) + lines(rest));
    }
    assert(seqs(r@) + lines(s@.skip(i as int)) =~= seqs(r@));
    r
}

/// The lines behind the first `n`; none where there are no more than `n`.
pub open spec fn beyond(ls: Seq<Seq<char>>, n: nat) -> Seq<Seq<char>> {
    if n <= ls.len() {
        ls.skip(n as int)
    } else {
        Seq::empty()
    }
}

/// The sum of what `f` gives for each of the lines.
pub open spec fn sum(ls: Seq<Seq<char>>, f: spec_fn(Seq<char>) -> u64) -> nat
    decreases ls.len(),
{
    if ls.len() == 0 {
        0
    } else {
        sum(ls.drop_last(), f) + f(ls.last()) as nat
    }
}

/// Fewer lines give no greater sum.
pub proof fn lemma_sum_prefix(ls: Seq<Seq<char>>, f: spec_fn(Seq<char>) -> u64, n: int)
    requires
        0 <= n <= ls.len(),
    ensures
        sum(ls.take(n), f) <= sum(ls, f),
    decreases ls.len(),
{
    if n < ls.len() {
        lemma_sum_prefix(ls.drop_last(), f, n);
        assert(ls.drop_last().take(n) =~= ls.take(n));
    } else {
        assert(ls.take(n) =~= ls);
    }
}

/// The sum over some lines and then others is that over the ones and that over the others.
pub proof fn law_sum_adds(a: Seq<Seq<char>>, b: Seq<Seq<char>>, f: spec_fn(Seq<char>) -> u64)
    ensures
        sum(a + b, f) == sum(a, f) + sum(b, f),
    decreases b.len(),
{
    if b.len() == 0 {
        assert(a + b =~= a);
    } else {
        law_sum_adds(a, b.drop_last(), f);
        assert((a + b).drop_last() =~= a + b.drop_last());
        assert((a + b).last() == b.last());
    }
}

/// The words of `s`: its longest runs without white space, in order.
pub open spec fn words(s: Seq<char>) -> Seq<Seq<char>>
    decreases s.len(),
{
    let t = s.skip(run(s, Class::White) as int);
    let n = run(t, Class::Ink) as int;
    if t.len() == 0 {
        Seq::empty()
    } else {
        proof {
            lemma_run(s, Class::White);
            lemma_run(t, Class::Ink);
        }
        seq![t.take(n)] + words(t.skip(n))
    }
}

/// Cuts text into its words.
pub fn split_words(s: &[char]) -> (r: Vec<Vec<char>>)
    ensures
        seqs(r@) == words(s@),
{
    let mut r: Vec<Vec<char>> = Vec::new();
    assert(s@.skip(0) == s@);
    let mut i: usize = span(s, 0, Class::White);
    proof {
        lemma_run(s@, Class::White);
        lemma_words_skip_white(s@);
        assert(seqs(r@) + words(s@.skip(i as int)) =~= words(s@));
    }
    while i < s.len()
        invariant
            i <= s@.len(),
            i < s@.len() ==> !is_white(s@[i as int]),
            seqs(r@) + words(s@.skip(i as int)) == words(s@),
        decreases s@.len() - i,
    {
        let ghost rest = s@.skip(i as int);
        let ghost before = r@;
        let end: usize = span(s, i, Class::Ink);
        let next: usize = span(s, end, Class::White);
        let word = slice(s, i, end);
        r.push(word);
        proof {
            let n = run(rest, Class::Ink) as int;
            lemma_run(rest, Class::Ink);
            lemma_run_is(rest, Class::White, 0);
            assert(rest.skip(0) =~= rest);
            assert(word@ =~= rest.take(n));
            assert(s@.skip(end as int) =~= rest.skip(n));
            lemma_run(rest.skip(n), Class::White);
            lemma_words_skip_white(rest.skip(n));
            assert(s@.skip(next as int) =~= rest.skip(n).skip(next - end));
            assert(words(rest) =~= seq![word@] + words(rest.skip(n)));
            assert(seqs(r@) =~= seqs(before).push(word@));
            assert(seqs(r@) + words(s@.skip(next as int)) =~= seqs(before) + words(rest));
            if next < s@.len() {
                assert(s@[next as int] == rest.skip(n)[next - end]);
            }
        }
        i = next;
    }
    assert(words(s@.skip(i as int)) =~= Seq::empty());
    assert(seqs(r@) + words(s@.skip(i as int)) =~= seqs(r@));
    r
}

/// White space at the start adds no word.
pub proof fn lemma_words_skip_white(s: Seq<char>)
    ensures
        words(s.skip(run(s, Class::White) as int)) == words(s),
{
    let t = s.skip(run(s, Class::White) as int);
    lemma_run(s, Class::White);
    if t.len() > 0 {
        assert(t[0] == s[run(s, Class::White) as int]);
    }
    lemma_run_is(t, Class::White, 0);
    assert(t.skip(0) =~= t);
}

/// `s` without the run of class `k` at its end.
pub open spec fn trim_end(s: Seq<char>, k: Class) -> Seq<char> {
    s.take(s.len() - run_back(s, k))
}

/// `s` without the white space at its two ends.
pub open spec fn trim(s: Seq<char>) -> Seq<char> {
    trim_end(s.skip(run(s, Class::White) as int), Class::White)
}

/// Takes the run of class `k` off the end of `s`.
pub fn trimmed_end(s: &[char], k: Class) -> (r: Vec<char>)
    ensures
        r@ == trim_end(s@, k),
{
    let mut end: usize = s.len();
    assert(s@.take(s@.len() as int) =~= s@);
    while end > 0 && k.has(s[end - 1])
        invariant
            end <= s@.len(),
            run_back(s@, k) == run_back(s@.take(end as int), k) + s@.len() - end,
        decreases end,
    {
        let ghost t = s@.take(end as int);
        assert(t.drop_last() =~= s@.take(end - 1));
        end = end - 1;
    }
    let r = slice(s, 0, end);
    assert(r@ =~= trim_end(s@, k));
    r
}

/// Takes the white space off both ends of `s`.
pub fn trimmed(s: &[char]) -> (r: Vec<char>)
    ensures
        r@ == trim(s@),
{
    assert(s@.skip(0) =~= s@);
    let start: usize = span(s, 0, Class::White);
    let tail = slice(s, start, s.len());
    assert(tail@ =~= s@.skip(start as int));
    trimmed_end(&tail, Class::White)
}

/// Whether `pat` stands in `s` from position `i` on.
pub open spec fn stands_at(s: Seq<char>, pat: Seq<char>, i: int) -> bool {
    0 <= i && i + pat.len() <= s.len() && s.subrange(i, i + pat.len()) == pat
}

/// Whether `s` begins with `pat`.
pub open spec fn begins(s: Seq<char>, pat: Seq<char>) -> bool {
    stands_at(s, pat, 0)
}

/// Whether `pat` stands somewhere in `s`.
pub open spec fn has(s: Seq<char>, pat: Seq<char>) -> bool {
    exists|i: int| stands_at(s, pat, i)
}

/// The first position at or behind `from` at which `pat` stands in `s`.
pub open spec fn first_at(s: Seq<char>, pat: Seq<char>, from: int) -> Option<int>
    decreases s.len() + 1 - from,
{
    if from < 0 || from + pat.len() > s.len() {
        None
    } else if stands_at(s, pat, from) {
        Some(from)
    } else {
        first_at(s, pat, from + 1)
    }
}

/// Decides whether `pat` stands in `s` from position `i` on.
fn pattern_at(s: &[char], pat: &[char], i: usize) -> (r: bool)
    ensures
        r == stands_at(s@, pat@, i as int),
{
    if i > s.len() || pat.len() > s.len() - i {
        return false;
    }
    for j in 0..pat.len()
        invariant
            i + pat@.len() <= s@.len() <= usize::MAX,
            forall|k: int| 0 <= k < j ==> s@[i + k] == #[trigger] pat@[k],
    {
        if s[i + j] != pat[j] {
            assert(s@.subrange(i as int, i + pat@.len())[j as int] != pat@[j as int]);
            return false;
        }
    }
    assert(s@.subrange(i as int, i + pat@.len()) =~= pat@);
    true
}

/// Decides whether `s` begins with `pat`.
pub fn starts_with(s: &[char], pat: &str) -> (r: bool)
    ensures
        r == begins(s@, pat@),
{
    let p = chars(pat);
    pattern_at(s, &p, 0)
}

/// Finds the first position at or behind `from` at which `pat` stands in `s`.
pub fn find_from(s: &[char], pat: &str, from: usize) -> (r: Option<usize>)
    ensures
        match r {
            Some(i) => first_at(s@, pat@, from as int) == Some(i as int),
            None => first_at(s@, pat@, from as int) is None,
        },
        r matches Some(i) ==> from <= i && stands_at(s@, pat@, i as int),
{
    let p = chars(pat);
    let mut i: usize = from;
    while i < s.len() && p.len() <= s.len() - i
        invariant
            from <= i,
            p@ == pat@,
            first_at(s@, pat@, from as int) == first_at(s@, pat@, i as int),
        decreases s@.len() - i,
    {
        if pattern_at(s, &p, i) {
            return Some(i);
        }
        i = i + 1;
    }
    if i == s.len() && p.len() == 0 {
        assert(s@.subrange(i as int, i as int) =~= pat@);
        return Some(i);
    }
    None
}

/// A pattern that is found stands there, and one that is not stands nowhere behind `from`.
pub proof fn lemma_first_at(s: Seq<char>, pat: Seq<char>, from: int)
    requires
        0 <= from,
    ensures
        first_at(s, pat, from) matches Some(i) ==> from <= i && stands_at(s, pat, i) && forall|j: int|
            from <= j < i ==> !stands_at(s, pat, j),
        first_at(s, pat, from) is None ==> forall|j: int| from <= j ==> !stands_at(s, pat, j),
    decreases s.len() + 1 - from,
{
    if from + pat.len() <= s.len() && !stands_at(s, pat, from) {
        lemma_first_at(s, pat, from + 1);
    }
}

/// Decides whether `pat` stands somewhere in `s`.
pub fn contains(s: &[char], pat: &str) -> (r: bool)
    ensures
        r == has(s@, pat@),
{
    proof {
        lemma_first_at(s@, pat@, 0);
    }
    find_from(s, pat, 0).is_some()
}

/// The parts in order, with `sep` between each two of them.
pub open spec fn join(parts: Seq<Seq<char>>, sep: Seq<char>) -> Seq<char>
    decreases parts.len(),
{
    if parts.len() == 0 {
        Seq::empty()
    } else if parts.len() == 1 {
        parts[0]
    } else {
        join(parts.drop_last(), sep) + sep + parts.last()
    }
}

/// The contents of a vector of strings.
pub open spec fn views(v: Seq<String>) -> Seq<Seq<char>> {
    v.map_values(|x: String| x@)
}

/// Joins the parts with `sep` between each two of them.
pub fn joined(parts: &[String], sep: &str) -> (r: String)
    ensures
        r@ == join(views(parts@), sep@),
{
    let mut r = String::new();
    for i in 0..parts.len()
        invariant
            r@ == join(views(parts@).take(i as int), sep@),
    {
        let ghost shown = views(parts@).take(i + 1);
        assert(shown.drop_last() =~= views(parts@).take(i as int));
        if i > 0 {
            r.append(sep);
        }
        r.append(parts[i].as_str());
        assert(r@ =~= join(shown, sep@));
    }
    assert(views(parts@).take(parts@.len() as int) =~= views(parts@));
    r
}

/// Whether `w` is a word: not empty, and without white space.
pub open spec fn is_word(w: Seq<char>) -> bool {
    w.len() > 0 && forall|i: int| 0 <= i < w.len() ==> !is_white(#[trigger] w[i])
}

/// Each piece that text is cut into at white space is a word.
pub proof fn law_words_are_words(s: Seq<char>)
    ensures
        forall|i: int| 0 <= i < words(s).len() ==> is_word(#[trigger] words(s)[i]),
    decreases s.len(),
{
    let t = s.skip(run(s, Class::White) as int);
    let n = run(t, Class::Ink) as int;
    lemma_run(s, Class::White);
    lemma_run(t, Class::Ink);
    if t.len() > 0 {
        assert(t[0] == s[run(s, Class::White) as int]);
        assert(n > 0);
        law_words_are_words(t.skip(n));
        assert forall|i: int| 0 <= i < words(s).len() implies is_word(#[trigger] words(s)[i]) by {
            if i == 0 {
                assert forall|j: int| 0 <= j < n implies !is_white(#[trigger] t.take(n)[j]) by {
                    assert(t.take(n)[j] == t[j]);
                    assert(Class::Ink.holds(t[j]));
                }
            } else {
                assert(words(s)[i] == words(t.skip(n))[i - 1]);
            }
        }
    }
}

/// Text that is one word has that word alone.
pub proof fn lemma_words_of_word(w: Seq<char>)
    requires
        is_word(w),
    ensures
        words(w) == seq![w],
{
    lemma_run_is(w, Class::White, 0);
    assert(w.skip(0) =~= w);
    assert forall|i: int| 0 <= i < w.len() implies Class::Ink.holds(#[trigger] w[i]) by {}
    lemma_run_is(w, Class::Ink, w.len());
    assert(w.take(w.len() as int) =~= w);
    assert(words(w.skip(w.len() as int)) =~= Seq::empty());
    assert(words(w) =~= seq![w]);
}

/// White space between two texts parts their words.
pub proof fn lemma_words_apart(a: Seq<char>, c: char, b: Seq<char>)
    requires
        is_white(c),
    ensures
        words(a + seq![c] + b) == words(a) + words(b),
    decreases a.len(),
{
    let s = a + seq![c] + b;
    let k = run(a, Class::White);
    let t = a.skip(k as int);
    lemma_run(a, Class::White);
    if t.len() == 0 {
        let m = run(b, Class::White);
        lemma_run(b, Class::White);
        assert forall|i: int| 0 <= i < a.len() + 1 + m implies Class::White.holds(
            #[trigger] s[i],
        ) by {
            if i < a.len() {
                assert(s[i] == a[i]);
            } else if i > a.len() {
                assert(s[i] == b[i - a.len() - 1]);
            }
        }
        if m < b.len() {
            assert(s[(a.len() + 1 + m) as int] == b[m as int]);
        }
        lemma_run_is(s, Class::White, a.len() + 1 + m);
        assert(s.skip((a.len() + 1 + m) as int) =~= b.skip(m as int));
        lemma_words_skip_white(s);
        lemma_words_skip_white(b);
        assert(words(a) =~= Seq::empty());
        assert(words(a) + words(b) =~= words(b));
    } else {
        assert forall|i: int| 0 <= i < k implies Class::White.holds(#[trigger] s[i]) by {
            assert(s[i] == a[i]);
        }
        assert(s[k as int] == a[k as int]);
        lemma_run_is(s, Class::White, k);
        let u = t + seq![c] + b;
        assert(s.skip(k as int) =~= u);
        let n = run(t, Class::Ink);
        lemma_run(t, Class::Ink);
        assert(t[0] == a[k as int]);
        assert forall|i: int| 0 <= i < n implies Class::Ink.holds(#[trigger] u[i]) by {
            assert(u[i] == t[i]);
        }
        assert(!Class::Ink.holds(u[n as int]));
        lemma_run_is(u, Class::Ink, n);
        assert(u.take(n as int) =~= t.take(n as int));
        assert(u.skip(n as int) =~= t.skip(n as int) + seq![c] + b);
        lemma_words_apart(t.skip(n as int), c, b);
        assert(words(s) =~= words(a) + words(b));
    }
}

/// Words put together with single spaces are found again as they were.
pub proof fn law_words_of_joined(ws: Seq<Seq<char>>)
    requires
        forall|i: int| 0 <= i < ws.len() ==> is_word(#[trigger] ws[i]),
    ensures
        words(join(ws, " "@)) == ws,
    decreases ws.len(),
{
    reveal_strlit(" ");
    if ws.len() == 0 {
        assert(words(join(ws, " "@)) =~= ws);
    } else if ws.len() == 1 {
        lemma_words_of_word(ws[0]);
        assert(seq![ws[0]] =~= ws);
    } else {
        let front = ws.drop_last();
        assert forall|i: int| 0 <= i < front.len() implies is_word(#[trigger] front[i]) by {
            assert(front[i] == ws[i]);
        }
        law_words_of_joined(front);
        lemma_words_of_word(ws.last());
        assert(" "@ =~= seq![' ']);
        lemma_words_apart(join(front, " "@), ' ', ws.last());
        assert(front + seq![ws.last()] =~= ws);
    }
}

/// Behind a line feed new lines begin: the lines of two texts, of which the first ends with a
/// line feed, are those of the one and then those of the other.
pub proof fn law_lines_add(a: Seq<char>, b: Seq<char>)
    requires
        a.len() > 0 ==> a.last() == '\n',
    ensures
        lines(a + b) == lines(a) + lines(b),
    decreases a.len(),
{
    let s = a + b;
    if a.len() == 0 {
        assert(s =~= b);
        assert(lines(a) + lines(b) =~= lines(b));
    } else {
        let k = Class::IsNot('\n');
        let n = run(a, k);
        lemma_run(a, k);
        assert(n < a.len()) by {
            if n == a.len() {
                assert(k.holds(a[a.len() - 1]));
            }
        }
        assert forall|i: int| 0 <= i < n implies k.holds(#[trigger] s[i]) by {
            assert(s[i] == a[i]);
        }
        assert(s[n as int] == a[n as int]);
        lemma_run_is(s, k, n);
        let rest = a.skip(n as int + 1);
        assert(s.take(n as int) =~= a.take(n as int));
        assert(s.skip(n as int + 1) =~= rest + b);
        if rest.len() > 0 {
            assert(rest.last() == a.last());
        }
        law_lines_add(rest, b);
        assert(lines(s) =~= lines(a) + lines(b));
    }
}

} // verus!
