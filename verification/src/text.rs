//! Searching and trimming of character sequences.
//!
//! Text is modelled as `Seq<char>`, the view of `str` and `String`. The
//! executable functions work on slices of `char`; [`to_chars`] and
//! [`to_text`] convert from and to strings.

use vstd::prelude::*;
use vstd::slice::slice_subrange;
use vstd::string::StringExecFns;

verus! {

/// `pat` stands in `s` at position `i`.
pub open spec fn occurs_at(s: Seq<char>, pat: Seq<char>, i: int) -> bool {
    &&& 0 <= i
    &&& i + pat.len() <= s.len()
    &&& forall|k: int| 0 <= k < pat.len() ==> s[i + k] == #[trigger] pat[k]
}

/// `pat` stands somewhere in `s`.
pub open spec fn contains(s: Seq<char>, pat: Seq<char>) -> bool {
    exists|i: int| occurs_at(s, pat, i)
}

/// `i` is the leftmost position at which `pat` stands in `s`.
pub open spec fn is_first_occurrence(s: Seq<char>, pat: Seq<char>, i: int) -> bool {
    &&& occurs_at(s, pat, i)
    &&& forall|j: int| 0 <= j < i ==> !occurs_at(s, pat, j)
}

/// `i` is the rightmost position at which `pat` stands in `s`.
pub open spec fn is_last_occurrence(s: Seq<char>, pat: Seq<char>, i: int) -> bool {
    &&& occurs_at(s, pat, i)
    &&& forall|j: int| i < j ==> !occurs_at(s, pat, j)
}

/// The leftmost position of `pat` in `s`; meaningful where `contains(s, pat)`.
pub open spec fn first_occurrence(s: Seq<char>, pat: Seq<char>) -> int {
    choose|i: int| is_first_occurrence(s, pat, i)
}

/// The rightmost position of `pat` in `s`; meaningful where `contains(s, pat)`.
pub open spec fn last_occurrence(s: Seq<char>, pat: Seq<char>) -> int {
    choose|i: int| is_last_occurrence(s, pat, i)
}

/// The text before the leftmost `pat`, or all of `s` where `pat` is absent.
pub open spec fn before_first(s: Seq<char>, pat: Seq<char>) -> Seq<char> {
    if contains(s, pat) {
        s.take(first_occurrence(s, pat))
    } else {
        s
    }
}

/// The text after the rightmost `pat`, or all of `s` where `pat` is absent.
pub open spec fn after_last(s: Seq<char>, pat: Seq<char>) -> Seq<char> {
    if contains(s, pat) {
        s.skip(last_occurrence(s, pat) + pat.len())
    } else {
        s
    }
}

/// The positions below `n` at which `pat` stands in `s`, in ascending order.
pub open spec fn occurrences_below(s: Seq<char>, pat: Seq<char>, n: int) -> Seq<int>
    decreases n,
{
    if n <= 0 {
        Seq::empty()
    } else if occurs_at(s, pat, n - 1) {
        occurrences_below(s, pat, n - 1).push(n - 1)
    } else {
        occurrences_below(s, pat, n - 1)
    }
}

/// All positions at which `pat` stands in `s`, in ascending order.
pub open spec fn occurrences(s: Seq<char>, pat: Seq<char>) -> Seq<int> {
    occurrences_below(s, pat, s.len() as int + 1)
}

/// `s` with every `pat` replaced by `with`: read from left to right, each
/// `pat` that begins behind the one replaced before it. An empty `pat`
/// stands for nothing, and `s` is left as it is.
pub open spec fn replaced(s: Seq<char>, pat: Seq<char>, with: Seq<char>) -> Seq<char>
    decreases s.len(),
{
    if s.len() == 0 {
        s
    } else if pat.len() > 0 && occurs_at(s, pat, 0) {
        with + replaced(s.skip(pat.len() as int), pat, with)
    } else {
        seq![s[0]] + replaced(s.skip(1), pat, with)
    }
}

/// Unicode's `White_Space` property.
pub open spec fn is_whitespace(c: char) -> bool {
    let n = c as u32;
    ||| 0x09 <= n <= 0x0d
    ||| n == 0x20
    ||| n == 0x85
    ||| n == 0xa0
    ||| n == 0x1680
    ||| 0x2000 <= n <= 0x200a
    ||| n == 0x2028
    ||| n == 0x2029
    ||| n == 0x202f
    ||| n == 0x205f
    ||| n == 0x3000
}

/// `s` without its leading whitespace.
pub open spec fn trim_start(s: Seq<char>) -> Seq<char>
    decreases s.len(),
{
    if s.len() > 0 && is_whitespace(s[0]) {
        trim_start(s.skip(1))
    } else {
        s
    }
}

/// `s` without its trailing whitespace.
pub open spec fn trim_end(s: Seq<char>) -> Seq<char>
    decreases s.len(),
{
    if s.len() > 0 && is_whitespace(s.last()) {
        trim_end(s.drop_last())
    } else {
        s
    }
}

/// `s` without its leading and trailing whitespace.
pub open spec fn trim(s: Seq<char>) -> Seq<char> {
    trim_end(trim_start(s))
}

/// `s` neither begins nor ends with whitespace.
pub open spec fn is_trimmed(s: Seq<char>) -> bool {
    s.len() > 0 ==> !is_whitespace(s[0]) && !is_whitespace(s.last())
}

/// No character of `s` is `c`.
pub open spec fn lacks(s: Seq<char>, c: char) -> bool {
    forall|i: int| 0 <= i < s.len() ==> s[i] != c
}

/// Some occurrence of `pat` at or before `i` is the leftmost one.
pub proof fn lemma_first_occurrence_exists(s: Seq<char>, pat: Seq<char>, i: int)
    requires
        occurs_at(s, pat, i),
    ensures
        is_first_occurrence(s, pat, first_occurrence(s, pat)),
        first_occurrence(s, pat) <= i,
    decreases i,
{
    if exists|j: int| 0 <= j < i && occurs_at(s, pat, j) {
        let j = choose|j: int| 0 <= j < i && occurs_at(s, pat, j);
        lemma_first_occurrence_exists(s, pat, j);
    } else {
        assert(is_first_occurrence(s, pat, i));
    }
}

/// Some occurrence of `pat` at or after `i` is the rightmost one.
pub proof fn lemma_last_occurrence_exists(s: Seq<char>, pat: Seq<char>, i: int)
    requires
        occurs_at(s, pat, i),
    ensures
        is_last_occurrence(s, pat, last_occurrence(s, pat)),
        last_occurrence(s, pat) >= i,
    decreases s.len() - i,
{
    if exists|j: int| i < j && occurs_at(s, pat, j) {
        let j = choose|j: int| i < j && occurs_at(s, pat, j);
        lemma_last_occurrence_exists(s, pat, j);
    } else {
        assert(is_last_occurrence(s, pat, i));
    }
}

/// The leftmost occurrence is unique: whatever position qualifies is
/// `first_occurrence`.
pub proof fn lemma_first_occurrence_is(s: Seq<char>, pat: Seq<char>, i: int)
    requires
        is_first_occurrence(s, pat, i),
    ensures
        contains(s, pat),
        first_occurrence(s, pat) == i,
        before_first(s, pat) == s.take(i),
{
    lemma_first_occurrence_exists(s, pat, i);
}

/// The rightmost occurrence is unique: whatever position qualifies is
/// `last_occurrence`.
pub proof fn lemma_last_occurrence_is(s: Seq<char>, pat: Seq<char>, i: int)
    requires
        is_last_occurrence(s, pat, i),
    ensures
        contains(s, pat),
        last_occurrence(s, pat) == i,
        after_last(s, pat) == s.skip(i + pat.len()),
{
    lemma_last_occurrence_exists(s, pat, i);
}

/// In `front + pat + back`, `pat` stands right behind `front`.
pub proof fn lemma_occurs_between(front: Seq<char>, pat: Seq<char>, back: Seq<char>)
    ensures
        occurs_at(front + pat + back, pat, front.len() as int),
{
    let s = front + pat + back;
    assert forall|k: int| 0 <= k < pat.len() implies s[front.len() + k] == #[trigger] pat[k] by {
        assert(s[front.len() + k] == (front + pat)[front.len() + k]);
    }
}

/// Where `pat` stands nowhere earlier, `front + pat + back` splits at its
/// first `pat` into `front` and the rest.
pub proof fn lemma_before_first_split(front: Seq<char>, pat: Seq<char>, back: Seq<char>)
    requires
        forall|j: int| 0 <= j < front.len() ==> !occurs_at(front + pat + back, pat, j),
    ensures
        contains(front + pat + back, pat),
        first_occurrence(front + pat + back, pat) == front.len(),
        before_first(front + pat + back, pat) == front,
{
    let s = front + pat + back;
    lemma_occurs_between(front, pat, back);
    lemma_first_occurrence_is(s, pat, front.len() as int);
    assert(s.take(front.len() as int) =~= front);
}

/// Where `pat` stands nowhere later, `front + pat + back` splits at its
/// last `pat` into the rest and `back`.
pub proof fn lemma_after_last_split(front: Seq<char>, pat: Seq<char>, back: Seq<char>)
    requires
        forall|j: int| front.len() < j ==> !occurs_at(front + pat + back, pat, j),
    ensures
        contains(front + pat + back, pat),
        last_occurrence(front + pat + back, pat) == front.len(),
        after_last(front + pat + back, pat) == back,
{
    let s = front + pat + back;
    lemma_occurs_between(front, pat, back);
    lemma_last_occurrence_is(s, pat, front.len() as int);
    assert(s.skip((front.len() + pat.len()) as int) =~= back);
}

/// Where `front` lacks the first character of `pat`, the first `pat` of
/// `front + pat + back` is the one behind `front`.
pub proof fn lemma_before_first_lacking(front: Seq<char>, pat: Seq<char>, back: Seq<char>)
    requires
        pat.len() > 0,
        lacks(front, pat[0]),
    ensures
        contains(front + pat + back, pat),
        before_first(front + pat + back, pat) == front,
{
    let s = front + pat + back;
    assert forall|j: int| 0 <= j < front.len() implies !occurs_at(s, pat, j) by {
        assert(s[j] == front[j]);
        if occurs_at(s, pat, j) {
            assert(s[j + 0] == pat[0]);
        }
    }
    lemma_before_first_split(front, pat, back);
}

/// Where no place behind `front` at which `pat` would still fit holds the
/// first character of `pat`, the last `pat` of `front + pat + back` is the
/// one behind `front`.
pub proof fn lemma_after_last_lacking(front: Seq<char>, pat: Seq<char>, back: Seq<char>)
    requires
        pat.len() > 0,
        forall|j: int|
            front.len() < j <= front.len() + back.len() ==> (front + pat + back)[j] != pat[0],
    ensures
        contains(front + pat + back, pat),
        after_last(front + pat + back, pat) == back,
{
    let s = front + pat + back;
    assert forall|j: int| front.len() < j implies !occurs_at(s, pat, j) by {
        if occurs_at(s, pat, j) {
            assert(s[j + 0] == pat[0]);
        }
    }
    lemma_after_last_split(front, pat, back);
}

/// An occurrence that ends within the front of a text is an occurrence in
/// that front.
pub proof fn lemma_occurs_in_front(front: Seq<char>, back: Seq<char>, pat: Seq<char>, j: int)
    requires
        occurs_at(front + back, pat, j),
        j + pat.len() <= front.len(),
    ensures
        occurs_at(front, pat, j),
{
    assert forall|k: int| 0 <= k < pat.len() implies front[j + k] == #[trigger] pat[k] by {
        assert((front + back)[j + k] == front[j + k]);
    }
}

/// Two texts that lack a character lack it when put together.
pub proof fn lemma_lacks_concat(a: Seq<char>, b: Seq<char>, c: char)
    requires
        lacks(a, c),
        lacks(b, c),
    ensures
        lacks(a + b, c),
{
    assert forall|i: int| 0 <= i < (a + b).len() implies (a + b)[i] != c by {
        if i < a.len() {
            assert((a + b)[i] == a[i]);
        } else {
            assert((a + b)[i] == b[i - a.len()]);
        }
    }
}

/// Text that lacks some character of `pat` has no `pat`.
pub proof fn lemma_absent_lacking_any(s: Seq<char>, pat: Seq<char>, k: int)
    requires
        0 <= k < pat.len(),
        lacks(s, pat[k]),
    ensures
        !contains(s, pat),
{
    assert forall|j: int| !occurs_at(s, pat, j) by {
        if occurs_at(s, pat, j) {
            assert(s[j + k] == pat[k]);
        }
    }
}

/// Text that lacks the first character of `pat` has no `pat`.
pub proof fn lemma_absent_lacking(s: Seq<char>, pat: Seq<char>)
    requires
        pat.len() > 0,
        lacks(s, pat[0]),
    ensures
        !contains(s, pat),
{
    assert forall|j: int| !occurs_at(s, pat, j) by {
        if occurs_at(s, pat, j) {
            assert(s[j + 0] == pat[0]);
        }
    }
}

/// Text that ends in a character that is no whitespace keeps that character
/// when trimmed.
pub proof fn lemma_trim_keeps_last(s: Seq<char>)
    requires
        s.len() > 0,
        !is_whitespace(s.last()),
    ensures
        trim(s).len() > 0,
        trim(s).last() == s.last(),
        trim(s) == trim_start(s),
{
    let a = lemma_trim_start_is_suffix(s);
    if a >= s.len() {
        assert(is_whitespace(s[s.len() - 1]));
    }
    assert(s.skip(a).last() == s.last());
}

/// Trimming takes one trailing whitespace off text that is trimmed.
pub proof fn lemma_trim_one_trailing(s: Seq<char>, c: char)
    requires
        is_trimmed(s),
        is_whitespace(c),
    ensures
        trim(s.push(c)) == s,
{
    let t = s.push(c);
    assert(t.last() == c);
    assert(t.drop_last() =~= s);
    if s.len() == 0 {
        assert(t.skip(1) =~= s);
        assert(trim_start(t) == trim_start(t.skip(1)));
        assert(trim_start(s) == s);
        assert(trim_end(s) == s);
    } else {
        assert(t[0] == s[0]);
        assert(trim_start(t) == t);
        assert(trim_end(t) == trim_end(s));
        assert(trim_end(s) == s);
    }
}

/// `occurrences_below` lists exactly the occurrence positions below `n`,
/// each once, in ascending order.
pub proof fn lemma_occurrences_below(s: Seq<char>, pat: Seq<char>, n: int)
    ensures
        forall|k: int|
            0 <= k < occurrences_below(s, pat, n).len() ==> {
                let p = #[trigger] occurrences_below(s, pat, n)[k];
                0 <= p < n && occurs_at(s, pat, p)
            },
        forall|k: int, l: int|
            0 <= k < l < occurrences_below(s, pat, n).len() ==> occurrences_below(s, pat, n)[k]
                < occurrences_below(s, pat, n)[l],
        forall|p: int|
            0 <= p < n && occurs_at(s, pat, p) ==> occurrences_below(s, pat, n).contains(p),
    decreases n,
{
    if n > 0 {
        lemma_occurrences_below(s, pat, n - 1);
        let prev = occurrences_below(s, pat, n - 1);
        let cur = occurrences_below(s, pat, n);
        if occurs_at(s, pat, n - 1) {
            assert(cur[cur.len() - 1] == n - 1);
            assert forall|p: int| 0 <= p < n && occurs_at(s, pat, p) implies cur.contains(p) by {
                if p < n - 1 {
                    let k = choose|k: int| 0 <= k < prev.len() && prev[k] == p;
                    assert(cur[k] == p);
                } else {
                    assert(cur[cur.len() - 1] == p);
                }
            }
        }
    }
}

/// `occurrences` lists exactly the positions at which `pat` stands in `s`,
/// each once, in ascending order.
pub proof fn lemma_occurrences(s: Seq<char>, pat: Seq<char>)
    ensures
        forall|k: int|
            0 <= k < occurrences(s, pat).len() ==> occurs_at(
                s,
                pat,
                #[trigger] occurrences(s, pat)[k],
            ),
        forall|k: int, l: int|
            0 <= k < l < occurrences(s, pat).len() ==> occurrences(s, pat)[k] < occurrences(
                s,
                pat,
            )[l],
        forall|p: int| occurs_at(s, pat, p) ==> occurrences(s, pat).contains(p),
{
    lemma_occurrences_below(s, pat, s.len() as int + 1);
}

/// Where `pat` stands at `x` and at `y` and nowhere else, these two are
/// the list of its positions.
pub proof fn lemma_two_occurrences(s: Seq<char>, pat: Seq<char>, x: int, y: int)
    requires
        x < y,
        occurs_at(s, pat, x),
        occurs_at(s, pat, y),
        forall|p: int| occurs_at(s, pat, p) ==> p == x || p == y,
    ensures
        occurrences(s, pat) == seq![x, y],
{
    lemma_occurrences(s, pat);
    let found = occurrences(s, pat);
    let i = choose|i: int| 0 <= i < found.len() && found[i] == x;
    let j = choose|j: int| 0 <= j < found.len() && found[j] == y;
    if found.len() > 2 {
        assert(occurs_at(s, pat, found[0]));
        assert(occurs_at(s, pat, found[1]));
        assert(occurs_at(s, pat, found[2]));
        assert(found[0] < found[1] < found[2]);
    }
    assert(i != j);
    assert(found.len() == 2);
    assert(found[0] < found[1]);
    assert(found =~= seq![x, y]);
}

/// No `pat` begins within `s`, whatever text follows `s`.
pub open spec fn begins_none(s: Seq<char>, pat: Seq<char>) -> bool {
    forall|tail: Seq<char>, j: int| 0 <= j < s.len() ==> !occurs_at(s + tail, pat, j)
}

/// An occurrence that begins behind the front of a text is an occurrence in
/// the rest.
pub proof fn lemma_occurs_in_back(front: Seq<char>, back: Seq<char>, pat: Seq<char>, j: int)
    requires
        occurs_at(front + back, pat, j),
        front.len() <= j,
    ensures
        occurs_at(back, pat, j - front.len()),
{
    assert forall|k: int| 0 <= k < pat.len() implies back[j - front.len() + k] == #[trigger] pat[k] by {
        assert((front + back)[j + k] == back[j - front.len() + k]);
    }
}

/// No `pat` begins within text that lacks the first character of `pat`.
pub proof fn lemma_begins_none_lacking(s: Seq<char>, pat: Seq<char>)
    requires
        pat.len() > 0,
        lacks(s, pat[0]),
    ensures
        begins_none(s, pat),
{
    assert forall|tail: Seq<char>, j: int| 0 <= j < s.len() implies !occurs_at(s + tail, pat, j) by {
        if occurs_at(s + tail, pat, j) {
            assert((s + tail)[j + 0] == pat[0]);
            assert((s + tail)[j] == s[j]);
        }
    }
}

/// Where no `pat` begins within either of two texts, none begins within
/// the two put together.
pub proof fn lemma_begins_none_concat(a: Seq<char>, b: Seq<char>, pat: Seq<char>)
    requires
        begins_none(a, pat),
        begins_none(b, pat),
    ensures
        begins_none(a + b, pat),
{
    assert forall|tail: Seq<char>, j: int| 0 <= j < (a + b).len() implies !occurs_at(
        a + b + tail,
        pat,
        j,
    ) by {
        assert(a + b + tail =~= a + (b + tail));
        if j < a.len() {
            assert(!occurs_at(a + (b + tail), pat, j));
        } else if occurs_at(a + (b + tail), pat, j) {
            lemma_occurs_in_back(a, b + tail, pat, j);
            assert(!occurs_at(b + tail, pat, j - a.len()));
        }
    }
}

/// Text that holds no `pat` and is followed by a character that `pat` has
/// not: no `pat` begins within the text and that character.
pub proof fn lemma_begins_none_guarded(s: Seq<char>, guard: char, pat: Seq<char>)
    requires
        !contains(s, pat),
        lacks(pat, guard),
    ensures
        begins_none(s.push(guard), pat),
{
    let front = s.push(guard);
    assert forall|tail: Seq<char>, j: int| 0 <= j < front.len() implies !occurs_at(
        front + tail,
        pat,
        j,
    ) by {
        let all = front + tail;
        if occurs_at(all, pat, j) {
            if j + pat.len() <= s.len() {
                assert(all =~= s + (seq![guard] + tail));
                lemma_occurs_in_front(s, seq![guard] + tail, pat, j);
            } else {
                let k = s.len() - j;
                assert(all[j + k] == pat[k]);
                assert(all[s.len() as int] == guard);
            }
        }
    }
}

/// Where the first character of `pat` stands nowhere else in `pat` and no
/// `pat` begins within `inner`, the text `pat + inner + pat` holds `pat` at
/// its start, at its end and nowhere else.
pub proof fn lemma_bracketed_occurrences(pat: Seq<char>, inner: Seq<char>)
    requires
        pat.len() > 0,
        begins_none(inner, pat),
        lacks(pat.skip(1), pat[0]),
    ensures
        occurrences(pat + inner + pat, pat) == seq![0int, (pat.len() + inner.len()) as int],
{
    let s = pat + inner + pat;
    let end = (pat.len() + inner.len()) as int;
    assert(s =~= Seq::<char>::empty() + pat + (inner + pat));
    lemma_occurs_between(Seq::<char>::empty(), pat, inner + pat);
    assert(s =~= (pat + inner) + pat + Seq::<char>::empty());
    lemma_occurs_between(pat + inner, pat, Seq::<char>::empty());
    assert forall|p: int| occurs_at(s, pat, p) implies p == 0 || p == end by {
        assert(s[p + 0] == pat[0]);
        if p < pat.len() {
            assert(s[p] == pat[p]);
            if p > 0 {
                assert(pat.skip(1)[p - 1] == pat[p]);
            }
        } else if p < end {
            assert(s =~= pat + (inner + pat));
            lemma_occurs_in_back(pat, inner + pat, pat, p);
            assert(!occurs_at(inner + pat, pat, p - pat.len()));
        } else {
            assert(s[p] == pat[p - end]);
            if p > end {
                assert(pat.skip(1)[p - end - 1] == pat[p - end]);
            }
        }
    }
    lemma_two_occurrences(s, pat, 0, end);
}

/// Past the last position at which `pat` still fits, the list grows no more.
pub proof fn lemma_occurrences_tail(s: Seq<char>, pat: Seq<char>, m: int, n: int)
    requires
        s.len() - pat.len() < m <= n,
    ensures
        occurrences_below(s, pat, n) == occurrences_below(s, pat, m),
    decreases n - m,
{
    if m < n {
        lemma_occurrences_tail(s, pat, m, n - 1);
    }
}

/// `trim_start` drops a run of whitespace from the front and stops at the
/// first character that is none.
pub proof fn lemma_trim_start_is_suffix(s: Seq<char>) -> (a: int)
    ensures
        0 <= a <= s.len(),
        trim_start(s) == s.skip(a),
        forall|i: int| 0 <= i < a ==> is_whitespace(#[trigger] s[i]),
        a < s.len() ==> !is_whitespace(s[a]),
    decreases s.len(),
{
    if s.len() > 0 && is_whitespace(s[0]) {
        let a = lemma_trim_start_is_suffix(s.skip(1));
        assert(s.skip(1).skip(a) =~= s.skip(a + 1));
        assert forall|i: int| 0 <= i < a + 1 implies is_whitespace(#[trigger] s[i]) by {
            if i > 0 {
                assert(s.skip(1)[i - 1] == s[i]);
            }
        }
        if a + 1 < s.len() {
            assert(s.skip(1)[a] == s[a + 1]);
        }
        a + 1
    } else {
        assert(s.skip(0) =~= s);
        0
    }
}

/// The characters of a string, one by one.
pub fn to_chars(s: &str) -> (v: Vec<char>)
    ensures
        v@ == s@,
{
    let mut v: Vec<char> = Vec::new();
    for c in it: s.chars()
        invariant
            v@ == it.seq().take(it.index() as int),
    {
        v.push(c);
    }
    v
}

/// `std::string::String::push` appends one character to the string.
pub assume_specification[ String::push ](s: &mut String, c: char)
    ensures
        final(s)@ == old(s)@.push(c),
;

/// Appends the characters of `cs` to `out`.
pub fn push_chars(out: &mut String, cs: &[char])
    ensures
        final(out)@ == old(out)@ + cs@,
{
    let mut i: usize = 0;
    while i < cs.len()
        invariant
            i <= cs.len(),
            out@ == old(out)@ + cs@.take(i as int),
        decreases cs.len() - i,
    {
        out.push(cs[i]);
        i += 1;
        assert(cs@.take(i as int) =~= cs@.take(i - 1).push(cs@[i - 1]));
    }
    assert(cs@.take(cs.len() as int) =~= cs@);
}

/// The string made of the characters of `cs`.
pub fn to_text(cs: &[char]) -> (r: String)
    ensures
        r@ == cs@,
{
    let mut r = String::new();
    push_chars(&mut r, cs);
    r
}

/// Tells whether `c` is whitespace.
pub fn char_is_whitespace(c: char) -> (r: bool)
    ensures
        r == is_whitespace(c),
{
    let n: u32 = c as u32;
    (0x09 <= n && n <= 0x0d) || n == 0x20 || n == 0x85 || n == 0xa0 || n == 0x1680 || (0x2000 <= n
        && n <= 0x200a) || n == 0x2028 || n == 0x2029 || n == 0x202f || n == 0x205f || n == 0x3000
}

/// Tells whether `pat` stands in `s` at position `i`.
pub fn matches_at(s: &[char], pat: &[char], i: usize) -> (r: bool)
    ensures
        r == occurs_at(s@, pat@, i as int),
{
    if pat.len() > s.len() || i > s.len() - pat.len() {
        return false;
    }
    let mut k: usize = 0;
    while k < pat.len()
        invariant
            k <= pat.len(),
            i + pat.len() <= s.len(),
            forall|l: int| 0 <= l < k ==> s@[i + l] == #[trigger] pat@[l],
        decreases pat.len() - k,
    {
        if s[i + k] != pat[k] {
            return false;
        }
        k += 1;
    }
    true
}

/// The leftmost position of `pat` in `s`, if it stands there at all.
pub fn find(s: &[char], pat: &[char]) -> (r: Option<usize>)
    ensures
        r.is_some() == contains(s@, pat@),
        r.is_some() ==> r.unwrap() == first_occurrence(s@, pat@) && is_first_occurrence(
            s@,
            pat@,
            r.unwrap() as int,
        ),
{
    if pat.len() > s.len() {
        return None;
    }
    let last: usize = s.len() - pat.len();
    let mut i: usize = 0;
    loop
        invariant
            i <= last,
            last == s.len() - pat.len(),
            forall|j: int| 0 <= j < i ==> !occurs_at(s@, pat@, j),
        decreases last - i,
    {
        if matches_at(s, pat, i) {
            proof {
                lemma_first_occurrence_is(s@, pat@, i as int);
            }
            return Some(i);
        }
        if i == last {
            return None;
        }
        i += 1;
    }
}

/// The rightmost position of `pat` in `s`, if it stands there at all.
pub fn rfind(s: &[char], pat: &[char]) -> (r: Option<usize>)
    ensures
        r.is_some() == contains(s@, pat@),
        r.is_some() ==> r.unwrap() == last_occurrence(s@, pat@) && is_last_occurrence(
            s@,
            pat@,
            r.unwrap() as int,
        ),
{
    let mut i: usize = s.len();
    loop
        invariant
            i <= s.len(),
            forall|j: int| i < j ==> !occurs_at(s@, pat@, j),
        decreases i,
    {
        if matches_at(s, pat, i) {
            proof {
                lemma_last_occurrence_is(s@, pat@, i as int);
            }
            return Some(i);
        }
        if i == 0 {
            return None;
        }
        i -= 1;
    }
}

/// Tells whether `pat` stands somewhere in `s`.
pub fn holds(s: &[char], pat: &[char]) -> (r: bool)
    ensures
        r == contains(s@, pat@),
{
    find(s, pat).is_some()
}

/// The part of `s` before the leftmost `pat`; all of `s` where `pat` is absent.
pub fn take_before_first<'a>(s: &'a [char], pat: &[char]) -> (r: &'a [char])
    ensures
        r@ == before_first(s@, pat@),
{
    match find(s, pat) {
        Some(i) => slice_subrange(s, 0, i),
        None => s,
    }
}

/// The part of `s` after the rightmost `pat`; all of `s` where `pat` is absent.
pub fn take_after_last<'a>(s: &'a [char], pat: &[char]) -> (r: &'a [char])
    ensures
        r@ == after_last(s@, pat@),
{
    match rfind(s, pat) {
        Some(i) => {
            assert(occurs_at(s@, pat@, i as int));
            let n = s.len();
            slice_subrange(s, i + pat.len(), n)
        },
        None => s,
    }
}

/// The part of `s` between its leading and trailing whitespace.
pub fn trimmed(s: &[char]) -> (r: &[char])
    ensures
        r@ == trim(s@),
{
    let mut a: usize = 0;
    assert(s@.skip(0) =~= s@);
    while a < s.len() && char_is_whitespace(s[a])
        invariant
            a <= s.len(),
            trim_start(s@) == trim_start(s@.skip(a as int)),
        decreases s.len() - a,
    {
        assert(s@.skip(a as int).skip(1) =~= s@.skip(a + 1));
        a += 1;
    }
    let mut b: usize = s.len();
    assert(s@.subrange(a as int, b as int) =~= s@.skip(a as int));
    while b > a && char_is_whitespace(s[b - 1])
        invariant
            a <= b <= s.len(),
            trim(s@) == trim_end(s@.subrange(a as int, b as int)),
        decreases b,
    {
        assert(s@.subrange(a as int, b as int).drop_last() =~= s@.subrange(a as int, b - 1));
        b -= 1;
    }
    slice_subrange(s, a, b)
}

/// `s` with every `pat` replaced by `with`.
pub fn replace_all(s: &str, pat: &str, with: &str) -> (r: String)
    ensures
        r@ == replaced(s@, pat@, with@),
{
    let text = to_chars(s);
    let old = to_chars(pat);
    let mut out = String::new();
    let mut i: usize = 0;
    assert(text@.skip(0) =~= text@);
    while i < text.len()
        invariant
            i <= text.len(),
            text@ == s@,
            old@ == pat@,
            out@ + replaced(text@.skip(i as int), pat@, with@) == replaced(s@, pat@, with@),
        decreases text.len() - i,
    {
        let ghost rest = text@.skip(i as int);
        let ghost before = out@;
        let found = old.len() > 0 && matches_at(text.as_slice(), old.as_slice(), i);
        proof {
            if occurs_at(text@, pat@, i as int) {
                assert forall|k: int| 0 <= k < pat@.len() implies rest[0 + k]
                    == #[trigger] pat@[k] by {
                    assert(rest[0 + k] == text@[i + k]);
                }
            }
            if occurs_at(rest, pat@, 0) {
                assert forall|k: int| 0 <= k < pat@.len() implies text@[i + k]
                    == #[trigger] pat@[k] by {
                    assert(rest[0 + k] == text@[i + k]);
                }
            }
            assert(occurs_at(rest, pat@, 0) == occurs_at(text@, pat@, i as int));
        }
        if found {
            out.append(with);
            i += old.len();
            assert(rest.skip(pat@.len() as int) =~= text@.skip(i as int));
            assert(out@ + replaced(text@.skip(i as int), pat@, with@) =~= before + (with@
                + replaced(rest.skip(pat@.len() as int), pat@, with@)));
        } else {
            out.push(text[i]);
            i += 1;
            assert(rest.skip(1) =~= text@.skip(i as int));
            assert(out@ + replaced(text@.skip(i as int), pat@, with@) =~= before + (seq![rest[0]]
                + replaced(rest.skip(1), pat@, with@)));
        }
    }
    assert(out@ + replaced(text@.skip(i as int), pat@, with@) =~= out@);
    out
}

/// All positions at which `pat` stands in `s`, in ascending order.
pub fn find_all(s: &[char], pat: &[char]) -> (r: Vec<usize>)
    ensures
        r@.map_values(|p: usize| p as int) == occurrences(s@, pat@),
        forall|k: int| 0 <= k < r@.len() ==> #[trigger] r@[k] + pat@.len() <= usize::MAX,
{
    let mut r: Vec<usize> = Vec::new();
    if pat.len() > s.len() {
        proof {
            lemma_occurrences_below(s@, pat@, s.len() as int + 1);
            let found = occurrences(s@, pat@);
            assert(found.len() > 0 ==> occurs_at(s@, pat@, found[0]));
            assert(r@.map_values(|p: usize| p as int) =~= occurrences(s@, pat@));
        }
        return r;
    }
    let last: usize = s.len() - pat.len();
    let mut i: usize = 0;
    loop
        invariant_except_break
            i <= last,
            r@.map_values(|p: usize| p as int) == occurrences_below(s@, pat@, i as int),
        invariant
            last == s.len() - pat.len(),
            forall|k: int| 0 <= k < r@.len() ==> #[trigger] r@[k] <= last,
        ensures
            r@.map_values(|p: usize| p as int) == occurrences_below(s@, pat@, last + 1),
        decreases last - i,
    {
        if matches_at(s, pat, i) {
            r.push(i);
            assert(r@.map_values(|p: usize| p as int) =~= occurrences_below(
                s@,
                pat@,
                i as int,
            ).push(i as int));
        }
        if i == last {
            break;
        }
        i += 1;
    }
    proof {
        lemma_occurrences_tail(s@, pat@, last + 1, s.len() as int + 1);
    }
    r
}

} // verus!
