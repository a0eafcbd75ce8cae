//! Text as the rest of the crate needs it: compared byte by byte, joined, and
//! numbers written out in decimal.

use vstd::prelude::*;

verus! {

/// How one piece of text stands to another.
#[derive(Clone, Copy, Debug, PartialEq, Eq, Structural)]
pub enum Comparison {
    Before,
    Same,
    After,
}

/// `a` and `b` agree before `at`, and `a` comes first there: it has ended, or
/// its byte is the smaller one.
pub open spec fn parts_at(a: Seq<u8>, b: Seq<u8>, at: int) -> bool {
    &&& 0 <= at <= a.len()
    &&& at < b.len()
    &&& forall|i: int| 0 <= i < at ==> a[i] == b[i]
    &&& at == a.len() || a[at] < b[at]
}

/// Strict lexicographic order on bytes.
pub open spec fn bytes_before(a: Seq<u8>, b: Seq<u8>) -> bool {
    exists|at: int| parts_at(a, b, at)
}

/// Strict order on text: lexicographic on its UTF-8 bytes.
pub open spec fn text_before(a: Seq<char>, b: Seq<char>) -> bool {
    bytes_before(vstd::utf8::encode_utf8(a), vstd::utf8::encode_utf8(b))
}

/// Text never comes before itself.
pub proof fn lemma_text_irreflexive(a: Seq<char>)
    ensures
        !text_before(a, a),
{
}

/// Of two texts at most one comes first.
pub proof fn lemma_text_asymmetric(a: Seq<char>, b: Seq<char>)
    requires
        text_before(a, b),
    ensures
        !text_before(b, a),
{
    let x = vstd::utf8::encode_utf8(a);
    let y = vstd::utf8::encode_utf8(b);
    let i = choose|i: int| parts_at(x, y, i);
    if bytes_before(y, x) {
        let j = choose|j: int| parts_at(y, x, j);
        if i < j {
            assert(y[i] == x[i]);
        } else if j < i {
            assert(x[j] == y[j]);
        }
    }
}

/// The order on text chains.
pub proof fn lemma_text_transitive(a: Seq<char>, b: Seq<char>, c: Seq<char>)
    requires
        text_before(a, b),
        text_before(b, c),
    ensures
        text_before(a, c),
{
    let x = vstd::utf8::encode_utf8(a);
    let y = vstd::utf8::encode_utf8(b);
    let z = vstd::utf8::encode_utf8(c);
    let i = choose|i: int| parts_at(x, y, i);
    let j = choose|j: int| parts_at(y, z, j);
    let at = if i < j { i } else { j };
    assert(parts_at(x, z, at));
}

/// Of two different texts one comes first.
pub proof fn lemma_text_total(a: Seq<char>, b: Seq<char>)
    ensures
        text_before(a, b) || a == b || text_before(b, a),
{
    let x = vstd::utf8::encode_utf8(a);
    let y = vstd::utf8::encode_utf8(b);
    vstd::utf8::encode_utf8_decode_utf8(a);
    vstd::utf8::encode_utf8_decode_utf8(b);
    let at = lemma_first_difference(x, y, 0);
    if at < x.len() && at < y.len() {
        if x[at] < y[at] {
            assert(parts_at(x, y, at));
        } else {
            assert(parts_at(y, x, at));
        }
    } else if at < y.len() {
        assert(parts_at(x, y, at));
    } else if at < x.len() {
        assert(parts_at(y, x, at));
    } else {
        assert(x =~= y);
    }
}

/// The first place from `from` on where two byte strings differ or one ends.
proof fn lemma_first_difference(x: Seq<u8>, y: Seq<u8>, from: int) -> (at: int)
    requires
        0 <= from <= x.len(),
        from <= y.len(),
        forall|i: int| 0 <= i < from ==> x[i] == y[i],
    ensures
        from <= at <= x.len(),
        at <= y.len(),
        forall|i: int| 0 <= i < at ==> x[i] == y[i],
        at < x.len() && at < y.len() ==> x[at] != y[at],
    decreases x.len() - from,
{
    if from < x.len() && from < y.len() && x[from] == y[from] {
        lemma_first_difference(x, y, from + 1)
    } else {
        from
    }
}

/// Compares two texts by their bytes.
pub fn compare_text(a: &str, b: &str) -> (order: Comparison)
    ensures
        order == Comparison::Before <==> text_before(a@, b@),
        order == Comparison::Same <==> a@ == b@,
        order == Comparison::After <==> text_before(b@, a@),
{
    proof {
        vstd::utf8::encode_utf8_decode_utf8(a@);
        vstd::utf8::encode_utf8_decode_utf8(b@);
        lemma_text_irreflexive(a@);
        if text_before(a@, b@) {
            lemma_text_asymmetric(a@, b@);
        }
    }
    let x = a.as_bytes();
    let y = b.as_bytes();
    let mut i: usize = 0;
    while i < x.len() && i < y.len()
        invariant
            x@ == vstd::utf8::encode_utf8(a@),
            y@ == vstd::utf8::encode_utf8(b@),
            i <= x.len(),
            i <= y.len(),
            forall|k: int| 0 <= k < i ==> x@[k] == y@[k],
            text_before(a@, b@) ==> !text_before(b@, a@),
            !text_before(a@, a@),
        decreases x.len() - i,
    {
        if x[i] < y[i] {
            proof {
                assert(parts_at(x@, y@, i as int));
            }
            return Comparison::Before;
        }
        if y[i] < x[i] {
            proof {
                assert(parts_at(y@, x@, i as int));
            }
            return Comparison::After;
        }
        i = i + 1;
    }
    if i < y.len() {
        proof {
            assert(parts_at(x@, y@, i as int));
        }
        Comparison::Before
    } else if i < x.len() {
        proof {
            assert(parts_at(y@, x@, i as int));
        }
        Comparison::After
    } else {
        proof {
            assert(x@ =~= y@);
        }
        Comparison::Same
    }
}

/// The decimal digits of `n`, most significant first, without leading zeros.
pub open spec fn decimal_digits(n: nat) -> Seq<char>
    decreases n,
{
    if n < 10 {
        seq![digit(n)]
    } else {
        decimal_digits(n / 10).push(digit(n % 10))
    }
}

/// The character that stands for a number below ten.
pub open spec fn digit(n: nat) -> char {
    if n == 0 {
        '0'
    } else if n == 1 {
        '1'
    } else if n == 2 {
        '2'
    } else if n == 3 {
        '3'
    } else if n == 4 {
        '4'
    } else if n == 5 {
        '5'
    } else if n == 6 {
        '6'
    } else if n == 7 {
        '7'
    } else if n == 8 {
        '8'
    } else {
        '9'
    }
}

fn digit_text(n: u64) -> (text: &'static str)
    requires
        n < 10,
    ensures
        text@ == seq![digit(n as nat)],
{
    proof {
        reveal_strlit("0");
        reveal_strlit("1");
        reveal_strlit("2");
        reveal_strlit("3");
        reveal_strlit("4");
        reveal_strlit("5");
        reveal_strlit("6");
        reveal_strlit("7");
        reveal_strlit("8");
        reveal_strlit("9");
    }
    if n == 0 {
        "0"
    } else if n == 1 {
        "1"
    } else if n == 2 {
        "2"
    } else if n == 3 {
        "3"
    } else if n == 4 {
        "4"
    } else if n == 5 {
        "5"
    } else if n == 6 {
        "6"
    } else if n == 7 {
        "7"
    } else if n == 8 {
        "8"
    } else {
        "9"
    }
}

/// `n` written out in decimal.
pub fn decimal(n: u64) -> (text: String)
    ensures
        text@ == decimal_digits(n as nat),
    decreases n,
{
    if n < 10 {
        digit_text(n).to_owned()
    } else {
        let mut text = decimal(n / 10);
        text.append(digit_text(n % 10));
        text
    }
}

/// Text is ordered by its UTF-8 bytes as words are in a dictionary: where two
/// texts first differ the smaller byte comes first, and a text comes before any
/// that goes on from it.
pub proof fn law_text_is_ordered_as_in_a_dictionary(a: Seq<char>, b: Seq<char>, at: int)
    requires
        0 <= at <= vstd::utf8::encode_utf8(a).len(),
        at < vstd::utf8::encode_utf8(b).len(),
        vstd::utf8::encode_utf8(a).take(at) == vstd::utf8::encode_utf8(b).take(at),
        at < vstd::utf8::encode_utf8(a).len() ==> vstd::utf8::encode_utf8(a)[at]
            < vstd::utf8::encode_utf8(b)[at],
    ensures
        text_before(a, b),
        !text_before(b, a),
        a != b,
{
    let x = vstd::utf8::encode_utf8(a);
    let y = vstd::utf8::encode_utf8(b);
    assert forall|i: int| 0 <= i < at implies x[i] == y[i] by {
        assert(x.take(at)[i] == y.take(at)[i]);
    }
    assert(parts_at(x, y, at));
    lemma_text_asymmetric(a, b);
    lemma_text_irreflexive(a);
}

/// The number that decimal digits stand for.
pub open spec fn number(digits: Seq<char>) -> int
    decreases digits.len(),
{
    if digits.len() == 0 {
        0
    } else {
        10 * number(digits.drop_last()) + (digits.last() as int - 48)
    }
}

/// Digits written out stand for the number they were written for, are digits,
/// and begin with a zero only for zero itself.
pub proof fn law_decimal_digits_stand_for_the_number(n: nat)
    ensures
        number(decimal_digits(n)) == n,
        decimal_digits(n).len() > 0,
        forall|i: int|
            0 <= i < decimal_digits(n).len() ==> '0' <= #[trigger] decimal_digits(n)[i] <= '9',
        n > 0 ==> decimal_digits(n)[0] != '0',
    decreases n,
{
    if n < 10 {
        reveal_with_fuel(number, 2);
        assert(seq![digit(n)].drop_last() =~= Seq::empty());
    } else {
        law_decimal_digits_stand_for_the_number(n / 10);
        let front = decimal_digits(n / 10);
        let all = decimal_digits(n);
        assert(all.drop_last() =~= front);
        assert(all.last() == digit(n % 10));
        assert forall|i: int| 0 <= i < all.len() implies '0' <= #[trigger] all[i] <= '9' by {
            if i < front.len() {
                assert(all[i] == front[i]);
            }
        }
        assert(all[0] == front[0]);
    }
}

} // verus!
