//! Numerals and the order of strings.

use vstd::prelude::*;

verus! {

/// The digit `d`.
pub open spec fn digit(d: nat) -> char {
    if d == 0 {
        '0'
    } else if d == 1 {
        '1'
    } else if d == 2 {
        '2'
    } else if d == 3 {
        '3'
    } else if d == 4 {
        '4'
    } else if d == 5 {
        '5'
    } else if d == 6 {
        '6'
    } else if d == 7 {
        '7'
    } else if d == 8 {
        '8'
    } else {
        '9'
    }
}

/// The decimal numeral of `n`.
pub open spec fn digits(n: nat) -> Seq<char>
    decreases n,
{
    if n < 10 {
        seq![digit(n)]
    } else {
        digits(n / 10).push(digit(n % 10))
    }
}

/// The digit `d` as a string.
fn digit_str(d: usize) -> (r: &'static str)
    requires
        d < 10,
    ensures
        r@ == seq![digit(d as nat)],
{
    proof {
        reveal_strlit("0");
        reveal_strlit("1");
        reveal_strlit("2");
        reveal_strlit("3");
        reveal_strlit("4");
        reveal_strlit("5");
        reveal_strlit("6");
        reveal_strlit("7");
        reveal_strlit("8");
        reveal_strlit("9");
    }
    let r = if d == 0 {
        "0"
    } else if d == 1 {
        "1"
    } else if d == 2 {
        "2"
    } else if d == 3 {
        "3"
    } else if d == 4 {
        "4"
    } else if d == 5 {
        "5"
    } else if d == 6 {
        "6"
    } else if d == 7 {
        "7"
    } else if d == 8 {
        "8"
    } else {
        "9"
    };
    assert(r@ =~= seq![digit(d as nat)]);
    r
}

/// The decimal numeral of `n`.
pub fn decimal(n: usize) -> (r: String)
    ensures
        r@ == digits(n as nat),
    decreases n,
{
    if n < 10 {
        digit_str(n).to_owned()
    } else {
        let front = decimal(n / 10);
        let d = digit_str(n % 10);
        let r = front.concat(d);
        assert(r@ =~= digits((n / 10) as nat).push(digit((n % 10) as nat)));
        r
    }
}

/// Numerals are made of digits.
pub proof fn lemma_digits_chars(n: nat, i: int)
    requires
        0 <= i < digits(n).len(),
    ensures
        exists|d: nat| d < 10 && digits(n)[i] == #[trigger] digit(d),
    decreases n,
{
    if n < 10 {
        assert(digits(n)[0] == digit(n));
    } else if i == digits(n).len() - 1 {
        assert(digits(n)[i] == digit(n % 10));
    } else {
        lemma_digits_chars(n / 10, i);
    }
}

/// Different numbers have different numerals.
pub proof fn lemma_digits_injective(m: nat, n: nat)
    requires
        digits(m) == digits(n),
    ensures
        m == n,
    decreases m,
{
    lemma_digits_len(m);
    lemma_digits_len(n);
    assert(digits(m).last() == digits(n).last());
    if m < 10 || n < 10 {
        if m < 10 && n < 10 {
            assert(digits(m)[0] == digit(m));
            assert(digits(n)[0] == digit(n));
        }
    } else {
        assert(digits(m).drop_last() =~= digits(m / 10));
        assert(digits(n).drop_last() =~= digits(n / 10));
        lemma_digits_injective(m / 10, n / 10);
        assert(digits(m).last() == digit(m % 10));
        assert(digits(n).last() == digit(n % 10));
    }
}

proof fn lemma_digits_len(n: nat)
    ensures
        digits(n).len() >= 1,
        n >= 10 ==> digits(n).len() >= 2,
        n < 10 ==> digits(n).len() == 1,
    decreases n,
{
    if n >= 10 {
        lemma_digits_len(n / 10);
    }
}

/// `a` comes before `b` in the order of their characters.
pub open spec fn comes_before(a: Seq<char>, b: Seq<char>) -> bool
    decreases a.len(),
{
    if b.len() == 0 {
        false
    } else if a.len() == 0 {
        true
    } else if a[0] != b[0] {
        (a[0] as int) < (b[0] as int)
    } else {
        comes_before(a.drop_first(), b.drop_first())
    }
}

/// Whether `a` comes before `b` in the order of their characters.
pub fn before(a: &String, b: &String) -> (r: bool)
    ensures
        r == comes_before(a@, b@),
{
    let x = a.as_str();
    let y = b.as_str();
    let m = x.unicode_len();
    let n = y.unicode_len();
    let mut i: usize = 0;
    assert(a@.skip(0) =~= a@);
    assert(b@.skip(0) =~= b@);
    while i < m && i < n
        invariant
            i <= m,
            i <= n,
            m == a@.len(),
            n == b@.len(),
            x@ == a@,
            y@ == b@,
            comes_before(a@, b@) == comes_before(a@.skip(i as int), b@.skip(i as int)),
        decreases m - i,
    {
        let c = x.get_char(i);
        let d = y.get_char(i);
        assert(a@.skip(i as int)[0] == c);
        assert(b@.skip(i as int)[0] == d);
        assert(a@.skip(i as int).drop_first() =~= a@.skip(i + 1));
        assert(b@.skip(i as int).drop_first() =~= b@.skip(i + 1));
        if c != d {
            return (c as u32) < (d as u32);
        }
        i += 1;
    }
    i == m && i < n
}

/// The order is total on different strings, and strict.
pub proof fn lemma_before_total(a: Seq<char>, b: Seq<char>)
    ensures
        comes_before(a, b) ==> !comes_before(b, a),
        a != b ==> comes_before(a, b) || comes_before(b, a),
        !comes_before(a, a),
    decreases a.len(),
{
    if a.len() > 0 && b.len() > 0 && a[0] == b[0] {
        lemma_before_total(a.drop_first(), b.drop_first());
        if a.drop_first() == b.drop_first() {
            assert(a =~= seq![a[0]] + a.drop_first());
            assert(b =~= seq![b[0]] + b.drop_first());
        }
    }
    if a.len() == 0 && b.len() == 0 {
        assert(a =~= b);
    }
    if a.len() > 0 {
        lemma_before_total(a.drop_first(), a.drop_first());
    }
}

/// The order is transitive.
pub proof fn lemma_before_trans(a: Seq<char>, b: Seq<char>, c: Seq<char>)
    requires
        comes_before(a, b),
        comes_before(b, c),
    ensures
        comes_before(a, c),
    decreases a.len(),
{
    if a.len() > 0 && b.len() > 0 && c.len() > 0 && a[0] == b[0] && b[0] == c[0] {
        lemma_before_trans(a.drop_first(), b.drop_first(), c.drop_first());
    }
}

/// The texts, with `sep` between them.
pub open spec fn joined(texts: Seq<String>, sep: Seq<char>) -> Seq<char>
    decreases texts.len(),
{
    if texts.len() == 0 {
        seq![]
    } else if texts.len() == 1 {
        texts[0]@
    } else {
        joined(texts.drop_last(), sep) + sep + texts.last()@
    }
}

/// The texts, with `sep` between them.
pub fn join(texts: &Vec<String>, sep: &str) -> (r: String)
    ensures
        r@ == joined(texts@, sep@),
{
    if texts.len() == 0 {
        proof {
            reveal_strlit("");
        }
        let r = "".to_owned();
        assert(r@ =~= joined(texts@, sep@));
        return r;
    }
    let mut r = texts[0].clone();
    let mut i: usize = 1;
    assert(texts@.take(1)[0] == texts@[0]);
    while i < texts.len()
        invariant
            1 <= i <= texts@.len(),
            r@ == joined(texts@.take(i as int), sep@),
        decreases texts@.len() - i,
    {
        assert(texts@.take(i + 1).drop_last() =~= texts@.take(i as int));
        assert(texts@.take(i + 1).last() == texts@[i as int]);
        r = r.concat(sep).concat(texts[i].as_str());
        i += 1;
    }
    assert(texts@.take(i as int) =~= texts@);
    r
}

/// What `str::escape_debug` yields for a string.
pub uninterp spec fn escaped(text: Seq<char>) -> Seq<char>;

/// The characters of `text`, escaped as in a debug representation.
///
/// Calls `str::escape_debug`, which the standard library documents as
/// escaping each character with `char::escape_debug`, and collects what it
/// yields; the result depends on the text alone. Which characters are escaped
/// is not stated.
#[verifier::external_body]
pub(crate) fn escape(text: &String) -> (r: String)
    ensures
        r@ == escaped(text@),
{
    text.escape_debug().collect()
}

} // verus!
