//! What the operations on texts come to.

use vstd::prelude::*;
use crate::text::{
    decimal, digit, is_space, join_spec, lemma_split_nonempty, lemma_split_push, lemma_split_single,
    lines_spec, split_once_spec, split_spec, strip_cr, trim_end_spec, trim_spec, trim_start_spec,
};

verus! {

// ---- Numbers ----------------------------------------------------------------------

/// The number that decimal digits stand for.
pub open spec fn number(digits: Seq<char>) -> int
    decreases digits.len(),
{
    if digits.len() == 0 {
        0
    } else {
        10 * number(digits.drop_last()) + (digits.last() as int - '0' as int)
    }
}

/// A number written in decimal has digits only, stands for itself, and begins with
/// no zero unless it is zero.
pub proof fn decimals_stand_for_their_numbers(n: nat)
    ensures
        decimal(n).len() > 0,
        forall|k: int|
            0 <= k < decimal(n).len() ==> '0' as int <= (#[trigger] decimal(n)[k]) as int
                <= '9' as int,
        number(decimal(n)) == n,
        n > 0 ==> decimal(n)[0] != '0',
        n == 0 ==> decimal(n).len() == 1,
    decreases n,
{
    let s = decimal(n);
    if n < 10 {
        assert(s.drop_last() =~= Seq::<char>::empty());
        assert(number(s.drop_last()) == 0);
        assert(s.last() as int == 48 + n);
        assert(number(s) == n);
    } else {
        decimals_stand_for_their_numbers(n / 10);
        let before = decimal(n / 10);
        assert(s.drop_last() =~= before);
        assert(s.last() == digit(n % 10));
        assert(s[0] == before[0]);
        assert forall|k: int| 0 <= k < s.len() implies '0' as int <= (#[trigger] s[k]) as int
            <= '9' as int by {
            if k < before.len() {
                assert(s[k] == before[k]);
            }
        }
    }
}

// ---- Parts ------------------------------------------------------------------------

/// What splitting gives holds no separator, and joined again it is the text.
pub proof fn split_texts_join_again(s: Seq<char>, c: char)
    ensures
        join_spec(split_spec(s, c), seq![c]) == s,
        split_spec(s, c).len() >= 1,
        forall|k: int|
            0 <= k < split_spec(s, c).len() ==> !(#[trigger] split_spec(s, c)[k]).contains(c),
    decreases s.len(),
{
    s.index_of_last_ensures(c);
    if !s.contains(c) {
        lemma_split_single(s, c);
    } else {
        let i = s.index_of_last(c)->0;
        let rest = s.skip(i + 1);
        lemma_split_push(s, c, i);
        split_texts_join_again(s.take(i), c);
        let before = split_spec(s.take(i), c);
        assert(split_spec(s, c).drop_last() =~= before);
        assert(s =~= s.take(i) + seq![c] + rest);
        if rest.contains(c) {
            let k = choose|k: int| 0 <= k < rest.len() && rest[k] == c;
            assert(s[i + 1 + k] == c);
        }
    }
}

/// Splitting at the first separator gives what stands before and after it.
pub proof fn texts_split_once(s: Seq<char>, c: char, a: Seq<char>, b: Seq<char>)
    requires
        !a.contains(c),
    ensures
        split_once_spec(a + seq![c] + b, c) == Some((a, b)),
        !s.contains(c) <==> split_once_spec(s, c) is None,
{
    let t = a + seq![c] + b;
    t.index_of_first_ensures(c);
    s.index_of_first_ensures(c);
    assert(t[a.len() as int] == c);
    assert(t.contains(c));
    let i = t.index_of_first(c)->0;
    if i < a.len() {
        assert(a[i] == t[i]);
    }
    assert(i == a.len());
    assert(t.take(i) =~= a);
    assert(t.skip(i + 1) =~= b);
}

// ---- White space ------------------------------------------------------------------

/// Whether a text is white space only.
pub open spec fn blank(s: Seq<char>) -> bool {
    forall|k: int| 0 <= k < s.len() ==> is_space(#[trigger] s[k])
}

/// A text trimmed at its start is the text without the white space before it.
pub proof fn trimmed_starts(a: Seq<char>, s: Seq<char>)
    requires
        blank(a),
        s.len() > 0 ==> !is_space(s[0]),
    ensures
        trim_start_spec(a + s) == s,
    decreases a.len(),
{
    let all = a + s;
    if a.len() == 0 {
        assert(all =~= s);
    } else {
        assert(is_space(a[0]));
        let less = a.skip(1);
        assert forall|k: int| 0 <= k < less.len() implies is_space(#[trigger] less[k]) by {
            assert(less[k] == a[k + 1]);
        }
        assert(all.skip(1) =~= less + s);
        trimmed_starts(less, s);
    }
}

proof fn lemma_trim_end(s: Seq<char>, b: Seq<char>)
    requires
        blank(b),
        s.len() > 0 ==> !is_space(s.last()),
    ensures
        trim_end_spec(s + b) == s,
    decreases b.len(),
{
    let all = s + b;
    if b.len() == 0 {
        assert(all =~= s);
    } else {
        assert(is_space(b[b.len() - 1]));
        let less = b.drop_last();
        assert forall|k: int| 0 <= k < less.len() implies is_space(#[trigger] less[k]) by {
            assert(less[k] == b[k]);
        }
        assert(all.drop_last() =~= s + less);
        assert(all.last() == b.last());
        lemma_trim_end(s, less);
    }
}

/// A trimmed text is the text without the white space around it.
pub proof fn trimmed_texts(a: Seq<char>, s: Seq<char>, b: Seq<char>)
    requires
        blank(a),
        blank(b),
        s.len() > 0,
        !is_space(s[0]),
        !is_space(s.last()),
    ensures
        trim_spec(a + s + b) == s,
{
    assert(a + s + b =~= a + (s + b));
    assert((s + b)[0] == s[0]);
    trimmed_starts(a, s + b);
    lemma_trim_end(s, b);
}

// ---- Lines ------------------------------------------------------------------------

proof fn lemma_split_first(a: Seq<char>, b: Seq<char>, c: char)
    requires
        !a.contains(c),
    ensures
        split_spec(a + seq![c] + b, c) == seq![a] + split_spec(b, c),
    decreases b.len(),
{
    let s = a + seq![c] + b;
    b.index_of_last_ensures(c);
    if !b.contains(c) {
        assert(s[a.len() as int] == c);
        assert forall|j: int| a.len() < j < s.len() implies s[j] != c by {
            assert(s[j] == b[j - a.len() - 1]);
        }
        lemma_split_push(s, c, a.len() as int);
        lemma_split_single(b, c);
        assert(s.take(a.len() as int) =~= a);
        assert(s.skip(a.len() as int + 1) =~= b);
        lemma_split_single(a, c);
        assert(seq![a].push(b) =~= seq![a] + seq![b]);
    } else {
        let i = b.index_of_last(c)->0;
        let at = a.len() + 1 + i;
        assert(s[at] == c);
        assert forall|j: int| at < j < s.len() implies s[j] != c by {
            assert(s[j] == b[j - a.len() - 1]);
        }
        lemma_split_push(s, c, at);
        lemma_split_push(b, c, i);
        lemma_split_first(a, b.take(i), c);
        assert(s.take(at) =~= a + seq![c] + b.take(i));
        assert(s.skip(at + 1) =~= b.skip(i + 1));
        assert((seq![a] + split_spec(b.take(i), c)).push(b.skip(i + 1)) =~= seq![a] + split_spec(
            b.take(i),
            c,
        ).push(b.skip(i + 1)));
    }
}

/// The first line of a text is what stands before its first line feed, without a
/// carriage return at its end; the others are the lines of the rest. Without a line
/// feed the text is its only line, and an empty text has none.
pub proof fn texts_have_their_lines(a: Seq<char>, b: Seq<char>)
    requires
        !a.contains('\n'),
    ensures
        a.len() == 0 || a.last() != '\r' ==> lines_spec(a + seq!['\n'] + b) == seq![a]
            + lines_spec(b),
        lines_spec(a + seq!['\r'] + seq!['\n'] + b) == seq![a] + lines_spec(b),
        a.len() > 0 ==> lines_spec(a) == seq![a],
        a.len() == 0 ==> lines_spec(a).len() == 0,
{
    lemma_split_first(a, b, '\n');
    lemma_split_nonempty(b, '\n');
    lemma_lines_rest(a, b);
    let r = a + seq!['\r'];
    assert(!r.contains('\n')) by {
        if r.contains('\n') {
            let k = choose|k: int| 0 <= k < r.len() && r[k] == '\n';
            assert(k < a.len());
            assert(a[k] == '\n');
        }
    }
    lemma_split_first(r, b, '\n');
    lemma_lines_rest(r, b);
    assert(strip_cr(r) =~= a);
    lemma_split_single(a, '\n');
    let parts = split_spec(a, '\n');
    assert(parts =~= seq![a]);
    if a.len() > 0 {
        assert(lines_spec(a) =~= seq![a]);
    } else {
        assert(lines_spec(a) =~= Seq::<Seq<char>>::empty());
    }
}

proof fn lemma_lines_rest(a: Seq<char>, b: Seq<char>)
    requires
        !a.contains('\n'),
    ensures
        lines_spec(a + seq!['\n'] + b) == seq![strip_cr(a)] + lines_spec(b),
{
    let s = a + seq!['\n'] + b;
    lemma_split_first(a, b, '\n');
    lemma_split_nonempty(b, '\n');
    let p = split_spec(b, '\n');
    let q = split_spec(s, '\n');
    assert(q.last() == p.last());
    let kept_p = if p.last().len() == 0 {
        p.drop_last()
    } else {
        p
    };
    let kept_q = if q.last().len() == 0 {
        q.drop_last()
    } else {
        q
    };
    assert(kept_q =~= seq![a] + kept_p);
    assert(lines_spec(s) =~= seq![strip_cr(a)] + lines_spec(b));
}

} // verus!
