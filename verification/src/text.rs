//! Character-level text operations: splitting into characters,
//! replacing every occurrence of a pattern, and the lexicographic order
//! of texts.

use vstd::prelude::*;
use vstd::string::StrSliceExecFns;
use vstd::string::StringExecFns;

verus! {

broadcast use vstd::string::group_string_axioms;

/// `s` with every occurrence of `from` replaced by `to`.  Occurrences are
/// found from left to right and never overlap; this is what `str::replace`
/// does for a non-empty pattern.  An empty pattern leaves `s` unchanged.
pub open spec fn replaced(s: Seq<char>, from: Seq<char>, to: Seq<char>) -> Seq<char>
    decreases s.len(),
{
    if s.len() == 0 {
        seq![]
    } else if 0 < from.len() <= s.len() && s.take(from.len() as int) == from {
        to + replaced(s.skip(from.len() as int), from, to)
    } else {
        seq![s[0]] + replaced(s.skip(1), from, to)
    }
}

/// Strict lexicographic order on texts, comparing characters by their
/// code points; a proper prefix comes first.  This is the order of
/// `String`'s `Ord`, since UTF-8 preserves the order of code points.
pub open spec fn text_lt(a: Seq<char>, b: Seq<char>) -> bool
    decreases a.len(),
{
    if a.len() == 0 {
        b.len() > 0
    } else if b.len() == 0 {
        false
    } else if a[0] < b[0] {
        true
    } else if a[0] == b[0] {
        text_lt(a.drop_first(), b.drop_first())
    } else {
        false
    }
}

/// No text comes before itself.
pub proof fn lemma_text_lt_irreflexive(a: Seq<char>)
    ensures
        !text_lt(a, a),
    decreases a.len(),
{
    if a.len() > 0 {
        lemma_text_lt_irreflexive(a.drop_first());
    }
}

/// Of two different texts, one comes before the other, and never both.
pub proof fn lemma_text_lt_total(a: Seq<char>, b: Seq<char>)
    ensures
        a != b ==> (text_lt(a, b) || text_lt(b, a)),
        !(text_lt(a, b) && text_lt(b, a)),
    decreases a.len(),
{
    if a.len() > 0 && b.len() > 0 && a[0] == b[0] {
        lemma_text_lt_total(a.drop_first(), b.drop_first());
        if a != b {
            assert(a.drop_first() != b.drop_first()) by {
                if a.drop_first() == b.drop_first() {
                    assert(a =~= seq![a[0]] + a.drop_first());
                    assert(b =~= seq![b[0]] + b.drop_first());
                }
            }
        }
    } else if a.len() == 0 && b.len() == 0 {
        assert(a =~= b);
    }
}

/// The order is transitive.
pub proof fn lemma_text_lt_transitive(a: Seq<char>, b: Seq<char>, c: Seq<char>)
    requires
        text_lt(a, b),
        text_lt(b, c),
    ensures
        text_lt(a, c),
    decreases a.len(),
{
    if a.len() > 0 && b.len() > 0 && c.len() > 0 && a[0] == b[0] && b[0] == c[0] {
        lemma_text_lt_transitive(a.drop_first(), b.drop_first(), c.drop_first());
    }
}

/// `a` and `b` first differ at position `i`, where `a`'s character has the
/// smaller code point.
pub open spec fn first_difference_smaller(a: Seq<char>, b: Seq<char>, i: int) -> bool {
    &&& 0 <= i < a.len()
    &&& i < b.len()
    &&& forall|j: int| 0 <= j < i ==> a[j] == b[j]
    &&& a[i] < b[i]
}

/// `a` is a proper prefix of `b`.
pub open spec fn proper_prefix(a: Seq<char>, b: Seq<char>) -> bool {
    &&& a.len() < b.len()
    &&& forall|j: int| 0 <= j < a.len() ==> a[j] == b[j]
}

proof fn lemma_first_difference_lt(a: Seq<char>, b: Seq<char>, i: int)
    requires
        first_difference_smaller(a, b, i),
    ensures
        text_lt(a, b),
    decreases i,
{
    if i > 0 {
        assert(a[0] == b[0]);
        let a1 = a.drop_first();
        let b1 = b.drop_first();
        assert forall|j: int| 0 <= j < i - 1 implies a1[j] == b1[j] by {
            assert(a[j + 1] == b[j + 1]);
        }
        assert(a1[i - 1] == a[i] && b1[i - 1] == b[i]);
        lemma_first_difference_lt(a1, b1, i - 1);
    }
}

proof fn lemma_proper_prefix_lt(a: Seq<char>, b: Seq<char>)
    requires
        proper_prefix(a, b),
    ensures
        text_lt(a, b),
    decreases a.len(),
{
    if a.len() > 0 {
        assert(a[0] == b[0]);
        let a1 = a.drop_first();
        let b1 = b.drop_first();
        assert forall|j: int| 0 <= j < a1.len() implies a1[j] == b1[j] by {
            assert(a[j + 1] == b[j + 1]);
        }
        lemma_proper_prefix_lt(a1, b1);
    }
}

proof fn lemma_lt_has_reason(a: Seq<char>, b: Seq<char>) -> (i: int)
    requires
        text_lt(a, b),
    ensures
        proper_prefix(a, b) || first_difference_smaller(a, b, i),
    decreases a.len(),
{
    if a.len() == 0 {
        0
    } else if a[0] < b[0] {
        0
    } else {
        let a1 = a.drop_first();
        let b1 = b.drop_first();
        let i1 = lemma_lt_has_reason(a1, b1);
        if proper_prefix(a1, b1) {
            assert forall|j: int| 0 <= j < a.len() implies a[j] == b[j] by {
                if j > 0 {
                    assert(a[j] == a1[j - 1] && b[j] == b1[j - 1]);
                }
            }
            0
        } else {
            assert forall|j: int| 0 <= j < i1 + 1 implies a[j] == b[j] by {
                if j > 0 {
                    assert(a[j] == a1[j - 1] && b[j] == b1[j - 1]);
                }
            }
            assert(a[i1 + 1] == a1[i1] && b[i1 + 1] == b1[i1]);
            i1 + 1
        }
    }
}

/// `a` comes before `b` exactly when, at the first position where they
/// differ, `a`'s character has the smaller code point, or when `a` is a
/// proper prefix of `b`: the order of `String`.
pub proof fn lemma_text_lt_code_point_order(a: Seq<char>, b: Seq<char>)
    ensures
        text_lt(a, b) <==> ((exists|i: int| #[trigger] first_difference_smaller(a, b, i))
            || proper_prefix(a, b)),
{
    if text_lt(a, b) {
        let i = lemma_lt_has_reason(a, b);
        if !proper_prefix(a, b) {
            assert(first_difference_smaller(a, b, i));
        }
    }
    if exists|i: int| #[trigger] first_difference_smaller(a, b, i) {
        let i = choose|i: int| #[trigger] first_difference_smaller(a, b, i);
        lemma_first_difference_lt(a, b, i);
    }
    if proper_prefix(a, b) {
        lemma_proper_prefix_lt(a, b);
    }
}

/// Replacing a one-character pattern by a text without that character
/// leaves no occurrence of it: every occurrence is replaced.
pub proof fn lemma_replaced_leaves_no_pattern(s: Seq<char>, c: char, to: Seq<char>)
    requires
        !to.contains(c),
    ensures
        !replaced(s, seq![c], to).contains(c),
    decreases s.len(),
{
    if s.len() > 0 {
        lemma_replaced_leaves_no_pattern(s.skip(1), c, to);
        let rest = replaced(s.skip(1), seq![c], to);
        if s.take(1) == seq![c] {
            assert forall|k: int| 0 <= k < (to + rest).len() implies (to + rest)[k] != c by {
                if k >= to.len() {
                    assert((to + rest)[k] == rest[k - to.len()]);
                }
            }
        } else {
            assert(s[0] != c) by {
                if s[0] == c {
                    assert(s.take(1) =~= seq![c]);
                }
            }
            assert forall|k: int| 0 <= k < (seq![s[0]] + rest).len() implies (seq![s[0]] + rest)[k]
                != c by {
                if k >= 1 {
                    assert((seq![s[0]] + rest)[k] == rest[k - 1]);
                }
            }
        }
    }
}

/// A text without the one-character pattern is left as it is.
pub proof fn lemma_replaced_without_pattern(s: Seq<char>, c: char, to: Seq<char>)
    requires
        !s.contains(c),
    ensures
        replaced(s, seq![c], to) == s,
    decreases s.len(),
{
    if s.len() > 0 {
        let t = s.skip(1);
        assert forall|k: int| 0 <= k < t.len() implies t[k] != c by {
            assert(t[k] == s[k + 1]);
        }
        lemma_replaced_without_pattern(t, c, to);
        assert(s.take(1) != seq![c]) by {
            if s.take(1) == seq![c] {
                assert(s[0] == s.take(1)[0]);
            }
        }
        assert(seq![s[0]] + t =~= s);
    }
}

/// Replacing a one-character pattern works piece by piece: the result for
/// `x + y` is the result for `x` followed by the result for `y`.
pub proof fn lemma_replaced_char_concat(x: Seq<char>, y: Seq<char>, c: char, to: Seq<char>)
    ensures
        replaced(x + y, seq![c], to) == replaced(x, seq![c], to) + replaced(y, seq![c], to),
    decreases x.len(),
{
    if x.len() == 0 {
        assert(x + y =~= y);
    } else {
        let xy = x + y;
        lemma_replaced_char_concat(x.skip(1), y, c, to);
        assert(xy.skip(1) =~= x.skip(1) + y);
        assert(xy.take(1) =~= x.take(1));
        assert(xy[0] == x[0]);
    }
}

/// One character is replaced when it is the pattern and kept otherwise.
pub proof fn lemma_replaced_one_char(d: char, c: char, to: Seq<char>)
    ensures
        replaced(seq![d], seq![c], to) == (if d == c {
            to
        } else {
            seq![d]
        }),
{
    let s = seq![d];
    assert(s.skip(1) =~= Seq::<char>::empty());
    assert(replaced(Seq::<char>::empty(), seq![c], to) == Seq::<char>::empty());
    assert(s[0] == d);
    if d == c {
        assert(s.take(1) =~= seq![c]);
        assert(to + Seq::<char>::empty() =~= to);
    } else {
        assert(s.take(1) != seq![c]) by {
            if s.take(1) == seq![c] {
                assert(s.take(1)[0] == d);
            }
        }
        assert(seq![d] + Seq::<char>::empty() =~= seq![d]);
    }
}

/// A character found neither in `s` nor in `to` is not in `s` with `from`
/// replaced by `to`.
pub proof fn lemma_replaced_adds_nothing(s: Seq<char>, from: Seq<char>, to: Seq<char>, d: char)
    requires
        !s.contains(d),
        !to.contains(d),
    ensures
        !replaced(s, from, to).contains(d),
    decreases s.len(),
{
    if s.len() > 0 {
        if 0 < from.len() <= s.len() && s.take(from.len() as int) == from {
            let t = s.skip(from.len() as int);
            assert forall|k: int| 0 <= k < t.len() implies t[k] != d by {
                assert(t[k] == s[k + from.len()]);
            }
            lemma_replaced_adds_nothing(t, from, to, d);
            let rest = replaced(t, from, to);
            assert forall|k: int| 0 <= k < (to + rest).len() implies (to + rest)[k] != d by {
                if k >= to.len() {
                    assert((to + rest)[k] == rest[k - to.len()]);
                }
            }
        } else {
            let t = s.skip(1);
            assert forall|k: int| 0 <= k < t.len() implies t[k] != d by {
                assert(t[k] == s[k + 1]);
            }
            lemma_replaced_adds_nothing(t, from, to, d);
            let rest = replaced(t, from, to);
            assert(s[0] != d);
            assert forall|k: int| 0 <= k < (seq![s[0]] + rest).len() implies (seq![s[0]] + rest)[k]
                != d by {
                if k >= 1 {
                    assert((seq![s[0]] + rest)[k] == rest[k - 1]);
                }
            }
        }
    }
}

/// The characters of `s`, in order.
pub fn text_chars(s: &str) -> (chars: Vec<char>)
    ensures
        chars@ == s@,
{
    let mut chars: Vec<char> = Vec::new();
    for c in it: s.chars()
        invariant
            it.seq() == s@,
            chars@ == s@.take(it.index()),
    {
        chars.push(c);
        assert(chars@ == s@.take(it.index() + 1));
    }
    chars
}

/// Whether `pattern` occurs in `chars` at position `at`.
fn occurs_at(chars: &Vec<char>, at: usize, pattern: &Vec<char>) -> (r: bool)
    requires
        at + pattern@.len() <= chars@.len(),
    ensures
        r == (chars@.subrange(at as int, at + pattern@.len()) == pattern@),
{
    let mut k: usize = 0;
    while k < pattern.len()
        invariant
            k <= pattern@.len(),
            at + pattern@.len() <= chars.len(),
            chars@.subrange(at as int, at + k) == pattern@.take(k as int),
        decreases pattern@.len() - k,
    {
        if chars[at + k] != pattern[k] {
            assert(chars@.subrange(at as int, at + pattern@.len())[k as int] != pattern@[k as int]);
            return false;
        }
        k = k + 1;
        assert(chars@.subrange(at as int, at + k) =~= pattern@.take(k as int));
    }
    assert(pattern@.take(k as int) =~= pattern@);
    true
}

/// Replaces every occurrence of the non-empty pattern `from` in `s` by `to`.
pub fn replace_all(s: &str, from: &str, to: &str) -> (r: String)
    requires
        from@.len() > 0,
    ensures
        r@ == replaced(s@, from@, to@),
{
    let chars = text_chars(s);
    let pattern = text_chars(from);
    let n = chars.len();
    let m = pattern.len();
    let mut out = String::new();
    let mut seg: usize = 0;
    let mut i: usize = 0;
    assert(s@.skip(0) =~= s@);
    while i < n
        invariant
            chars@ == s@,
            pattern@ == from@,
            n == s@.len(),
            m == from@.len(),
            m > 0,
            seg <= i <= n,
            replaced(s@, from@, to@) == out@ + s@.subrange(seg as int, i as int) + replaced(
                s@.skip(i as int),
                from@,
                to@,
            ),
        decreases n - i,
    {
        let ghost rest = s@.skip(i as int);
        let found = if m <= n - i {
            occurs_at(&chars, i, &pattern)
        } else {
            false
        };
        if found {
            assert(rest.take(m as int) =~= s@.subrange(i as int, i + m));
            assert(rest.skip(m as int) =~= s@.skip(i + m));
            out.append(s.substring_char(seg, i));
            out.append(to);
            i = i + m;
            seg = i;
            assert(s@.subrange(seg as int, i as int) =~= Seq::<char>::empty());
        } else {
            assert(!(m <= rest.len() && rest.take(m as int) == from@)) by {
                if m <= n - i {
                    assert(rest.take(m as int) =~= s@.subrange(i as int, i + m));
                }
            }
            assert(rest.skip(1) =~= s@.skip(i + 1));
            assert(s@.subrange(seg as int, i + 1) =~= s@.subrange(seg as int, i as int) + seq![
                rest[0],
            ]);
            i = i + 1;
        }
    }
    assert(s@.skip(n as int) =~= Seq::<char>::empty());
    out.append(s.substring_char(seg, n));
    out
}

/// Whether `a` comes strictly before `b` in the lexicographic order.
pub fn text_less(a: &str, b: &str) -> (r: bool)
    ensures
        r == text_lt(a@, b@),
{
    let ac = text_chars(a);
    let bc = text_chars(b);
    let mut k: usize = 0;
    assert(a@.skip(0) =~= a@ && b@.skip(0) =~= b@);
    while k < ac.len() && k < bc.len() && ac[k] == bc[k]
        invariant
            ac@ == a@,
            bc@ == b@,
            k <= a@.len(),
            k <= b@.len(),
            text_lt(a@, b@) == text_lt(a@.skip(k as int), b@.skip(k as int)),
        decreases a@.len() - k,
    {
        assert(a@.skip(k as int).drop_first() =~= a@.skip(k + 1));
        assert(b@.skip(k as int).drop_first() =~= b@.skip(k + 1));
        k = k + 1;
    }
    if k == ac.len() {
        k < bc.len()
    } else if k == bc.len() {
        false
    } else {
        ac[k] < bc[k]
    }
}

} // verus!
