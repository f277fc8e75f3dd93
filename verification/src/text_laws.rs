//! What numerals, the order of strings and joined texts are.

use vstd::prelude::*;

use crate::text::{comes_before, digits, joined};

verus! {

/// The number that a character is as a digit.
pub open spec fn digit_value(c: char) -> int {
    c as int - '0' as int
}

/// The number that a numeral stands for.
pub open spec fn numeral_value(s: Seq<char>) -> int
    decreases s.len(),
{
    if s.len() == 0 {
        0
    } else {
        10 * numeral_value(s.drop_last()) + digit_value(s.last())
    }
}

/// The numeral of a number is made of the characters `0` to `9`, stands for
/// the number, and starts with `0` only if it is `0`.
pub proof fn law_numeral_stands_for_its_number(n: nat)
    ensures
        numeral_value(digits(n)) == n,
        digits(n).len() > 0,
        forall|i: int| 0 <= i < digits(n).len() ==> '0' <= #[trigger] digits(n)[i] <= '9',
        digits(n)[0] == '0' <==> n == 0,
    decreases n,
{
    if n < 10 {
        let s = digits(n);
        assert(s.drop_last() =~= seq![]);
        assert(numeral_value(s.drop_last()) == 0);
        assert(s.last() == s[0]);
    } else {
        law_numeral_stands_for_its_number(n / 10);
        let front = digits(n / 10);
        let s = digits(n);
        assert(s.drop_last() =~= front);
        assert(s[0] == front[0]);
        assert forall|i: int| 0 <= i < s.len() implies '0' <= #[trigger] s[i] <= '9' by {
            if i < front.len() {
                assert(s[i] == front[i]);
            }
        }
    }
}

/// Strings are in the order of the first character in which they differ; one
/// that the other continues comes first.
pub proof fn law_order_is_by_the_first_difference(a: Seq<char>, b: Seq<char>)
    ensures
        comes_before(a, b) <==> exists|k: int|
            0 <= k <= a.len() && k < b.len() && (forall|j: int|
                0 <= j < k ==> #[trigger] a[j] == b[j]) && #[trigger] first_is_less(a, b, k),
    decreases a.len(),
{
    if a.len() > 0 && b.len() > 0 && a[0] == b[0] {
        let x = a.drop_first();
        let y = b.drop_first();
        law_order_is_by_the_first_difference(x, y);
        if comes_before(a, b) {
            let k = choose|k: int|
                0 <= k <= x.len() && k < y.len() && (forall|j: int|
                    0 <= j < k ==> #[trigger] x[j] == y[j]) && #[trigger] first_is_less(x, y, k);
            assert forall|j: int| 0 <= j < k + 1 implies #[trigger] a[j] == b[j] by {
                if j > 0 {
                    assert(x[j - 1] == y[j - 1]);
                }
            }
            assert(first_is_less(a, b, k + 1));
        }
        if exists|k: int|
            0 <= k <= a.len() && k < b.len() && (forall|j: int|
                0 <= j < k ==> #[trigger] a[j] == b[j]) && #[trigger] first_is_less(a, b, k) {
            let k = choose|k: int|
                0 <= k <= a.len() && k < b.len() && (forall|j: int|
                    0 <= j < k ==> #[trigger] a[j] == b[j]) && #[trigger] first_is_less(a, b, k);
            assert(k > 0);
            assert forall|j: int| 0 <= j < k - 1 implies #[trigger] x[j] == y[j] by {
                assert(a[j + 1] == b[j + 1]);
            }
            assert(first_is_less(x, y, k - 1));
        }
    } else {
        if comes_before(a, b) {
            assert(first_is_less(a, b, 0));
        }
        if exists|k: int|
            0 <= k <= a.len() && k < b.len() && (forall|j: int|
                0 <= j < k ==> #[trigger] a[j] == b[j]) && #[trigger] first_is_less(a, b, k) {
            let k = choose|k: int|
                0 <= k <= a.len() && k < b.len() && (forall|j: int|
                    0 <= j < k ==> #[trigger] a[j] == b[j]) && #[trigger] first_is_less(a, b, k);
            if k > 0 {
                assert(a[0] == b[0]);
            }
        }
    }
}

/// At `k`, `a` ends or has the smaller character.
pub open spec fn first_is_less(a: Seq<char>, b: Seq<char>, k: int) -> bool {
    k == a.len() || (k < a.len() && a[k] < b[k])
}

/// Where the `i`th text starts in the joined one.
pub open spec fn start_of(texts: Seq<String>, sep: Seq<char>, i: int) -> int
    decreases i,
{
    if i <= 0 {
        0
    } else {
        start_of(texts, sep, i - 1) + texts[i - 1]@.len() + sep.len()
    }
}

/// The texts stand one after the other in the joined one, each whole, with the
/// separator between two of them and nowhere else.
pub proof fn law_joined_holds_each_text(texts: Seq<String>, sep: Seq<char>, i: int)
    requires
        0 <= i < texts.len(),
    ensures
        ({
            let all = joined(texts, sep);
            let at = start_of(texts, sep, i);
            let end = at + texts[i]@.len();
            &&& 0 <= at
            &&& end <= all.len()
            &&& all.subrange(at, end) == texts[i]@
            &&& i == texts.len() - 1 ==> end == all.len()
            &&& i < texts.len() - 1 ==> end + sep.len() <= all.len() && all.subrange(
                end,
                end + sep.len(),
            ) == sep
        }),
    decreases texts.len(),
{
    let all = joined(texts, sep);
    let n = texts.len() - 1;
    if n == 0 {
        assert(all.subrange(0, all.len() as int) =~= all);
    } else {
        let front = texts.drop_last();
        let before = joined(front, sep);
        assert(all == before + sep + texts.last()@);
        if i < n {
            law_joined_holds_each_text(front, sep, i);
            lemma_start(texts, front, sep, i);
            let at = start_of(texts, sep, i);
            let end = at + texts[i]@.len();
            assert(front[i] == texts[i]);
            assert(all.subrange(at, end) =~= before.subrange(at, end));
            if i < n - 1 {
                assert(all.subrange(end, end + sep.len()) =~= before.subrange(
                    end,
                    end + sep.len(),
                ));
            } else {
                assert(all.subrange(end, end + sep.len()) =~= sep);
            }
        } else {
            law_joined_holds_each_text(front, sep, n - 1);
            lemma_start(texts, front, sep, n - 1);
            assert(front[n - 1] == texts[n - 1]);
            let at = start_of(texts, sep, i);
            assert(at == before.len() + sep.len());
            assert(all.subrange(at, all.len() as int) =~= texts.last()@);
        }
    }
}

/// Where a text starts depends on those before it alone.
proof fn lemma_start(a: Seq<String>, b: Seq<String>, sep: Seq<char>, i: int)
    requires
        forall|j: int| 0 <= j < i ==> #[trigger] a[j] == b[j],
    ensures
        start_of(a, sep, i) == start_of(b, sep, i),
        start_of(a, sep, i) >= 0,
    decreases i,
{
    if i > 0 {
        lemma_start(a, b, sep, i - 1);
        assert(a[i - 1] == b[i - 1]);
    }
}

/// No texts are joined to nothing.
pub proof fn law_nothing_joined(sep: Seq<char>)
    ensures
        joined(Seq::<String>::empty(), sep).len() == 0,
{
}

} // verus!
