//! Text: equality and order of strings by their UTF-8 bytes, decimal
//! numerals, and runs of one repeated character.

use vstd::prelude::*;
use vstd::string::*;
use vstd::utf8::{encode_utf8, encode_utf8_decode_utf8};

verus! {

/// The outcome of a three-way comparison.
#[derive(Clone, Copy, Debug, PartialEq, Eq, Structural)]
pub enum Order {
    Less,
    Equal,
    Greater,
}

/// The UTF-8 bytes of a text.
pub open spec fn utf8(text: Seq<char>) -> Seq<u8> {
    encode_utf8(text)
}

/// The width of a text in a table: the number of its UTF-8 bytes.
pub open spec fn width(text: Seq<char>) -> nat {
    utf8(text).len()
}

/// The width of a text.
pub fn text_width(text: &str) -> (w: usize)
    ensures
        w == width(text@),
{
    text.as_bytes().len()
}

/// Texts with the same UTF-8 bytes are the same text.
pub proof fn lemma_utf8_injective(a: Seq<char>, b: Seq<char>)
    requires
        utf8(a) == utf8(b),
    ensures
        a == b,
{
    encode_utf8_decode_utf8(a);
    encode_utf8_decode_utf8(b);
}

/// The lexicographic order of two byte strings: the first position where they
/// differ decides, and a proper prefix comes first.
pub open spec fn lexicographic(a: Seq<u8>, b: Seq<u8>) -> Order
    decreases a.len(),
{
    if a.len() == 0 {
        if b.len() == 0 {
            Order::Equal
        } else {
            Order::Less
        }
    } else if b.len() == 0 {
        Order::Greater
    } else if a[0] < b[0] {
        Order::Less
    } else if a[0] > b[0] {
        Order::Greater
    } else {
        lexicographic(a.drop_first(), b.drop_first())
    }
}

/// The order of two texts: the lexicographic order of their UTF-8 bytes.
pub open spec fn text_order(a: Seq<char>, b: Seq<char>) -> Order {
    lexicographic(utf8(a), utf8(b))
}

/// Two byte strings compare as equal exactly when they are equal.
pub proof fn lemma_lexicographic_equal(a: Seq<u8>, b: Seq<u8>)
    ensures
        lexicographic(a, b) == Order::Equal <==> a == b,
    decreases a.len(),
{
    if a.len() > 0 && b.len() > 0 && a[0] == b[0] {
        lemma_lexicographic_equal(a.drop_first(), b.drop_first());
        if a.drop_first() == b.drop_first() {
            assert(a =~= seq![a[0]] + a.drop_first());
            assert(b =~= seq![b[0]] + b.drop_first());
        }
    } else if a.len() == 0 && b.len() == 0 {
        assert(a =~= b);
    }
}

/// Swapping the operands mirrors the outcome.
pub proof fn lemma_lexicographic_mirror(a: Seq<u8>, b: Seq<u8>)
    ensures
        lexicographic(a, b) == Order::Less <==> lexicographic(b, a) == Order::Greater,
        lexicographic(a, b) == Order::Equal <==> lexicographic(b, a) == Order::Equal,
    decreases a.len(),
{
    if a.len() > 0 && b.len() > 0 && a[0] == b[0] {
        lemma_lexicographic_mirror(a.drop_first(), b.drop_first());
    }
}

/// What comes before a byte string that does not come after a third comes
/// before the third.
pub proof fn lemma_lexicographic_transitive(a: Seq<u8>, b: Seq<u8>, c: Seq<u8>)
    requires
        lexicographic(a, b) == Order::Less,
        lexicographic(b, c) != Order::Greater,
    ensures
        lexicographic(a, c) == Order::Less,
    decreases a.len(),
{
    if a.len() > 0 && b.len() > 0 && c.len() > 0 && a[0] == b[0] && b[0] == c[0] {
        lemma_lexicographic_transitive(a.drop_first(), b.drop_first(), c.drop_first());
    }
}

/// The lexicographic order of two byte strings.
pub fn compare_bytes(a: &[u8], b: &[u8]) -> (order: Order)
    ensures
        order == lexicographic(a@, b@),
{
    let mut i: usize = 0;
    assert(a@.skip(0) =~= a@ && b@.skip(0) =~= b@);
    while i < a.len() && i < b.len()
        invariant
            i <= a@.len(),
            i <= b@.len(),
            lexicographic(a@, b@) == lexicographic(a@.skip(i as int), b@.skip(i as int)),
        decreases a@.len() - i,
    {
        proof {
            assert(a@.skip(i as int).drop_first() =~= a@.skip(i + 1));
            assert(b@.skip(i as int).drop_first() =~= b@.skip(i + 1));
        }
        if a[i] < b[i] {
            return Order::Less;
        }
        if a[i] > b[i] {
            return Order::Greater;
        }
        i = i + 1;
    }
    if i < b.len() {
        Order::Less
    } else if i < a.len() {
        Order::Greater
    } else {
        Order::Equal
    }
}

/// The order of two texts.
pub fn compare_text(a: &str, b: &str) -> (order: Order)
    ensures
        order == text_order(a@, b@),
{
    compare_bytes(a.as_bytes(), b.as_bytes())
}

/// Whether two texts are the same.
pub fn same_text(a: &str, b: &str) -> (same: bool)
    ensures
        same == (a@ == b@),
{
    let order = compare_bytes(a.as_bytes(), b.as_bytes());
    proof {
        lemma_lexicographic_equal(utf8(a@), utf8(b@));
        if utf8(a@) == utf8(b@) {
            lemma_utf8_injective(a@, b@);
        }
    }
    order == Order::Equal
}

/// The bytes of `text` begin with the bytes of `prefix`.
pub open spec fn begins_with(text: Seq<char>, prefix: Seq<char>) -> bool {
    utf8(prefix).is_prefix_of(utf8(text))
}

/// The bytes of `text` end with the bytes of `suffix`.
pub open spec fn finishes_with(text: Seq<char>, suffix: Seq<char>) -> bool {
    utf8(suffix).is_suffix_of(utf8(text))
}

/// Whether `text` begins with `prefix`.
pub fn starts_with(text: &str, prefix: &str) -> (found: bool)
    ensures
        found == begins_with(text@, prefix@),
{
    let t = text.as_bytes();
    let p = prefix.as_bytes();
    if p.len() > t.len() {
        return false;
    }
    let mut i: usize = 0;
    while i < p.len()
        invariant
            i <= p@.len() <= t@.len(),
            t@ == utf8(text@),
            p@ == utf8(prefix@),
            forall|j: int| 0 <= j < i ==> t@[j] == p@[j],
        decreases p@.len() - i,
    {
        if t[i] != p[i] {
            proof {
                assert(t@.subrange(0, p@.len() as int)[i as int] == t@[i as int]);
            }
            return false;
        }
        i = i + 1;
    }
    assert(p@ =~= t@.subrange(0, p@.len() as int));
    true
}

/// Whether `text` ends with `suffix`.
pub fn ends_with(text: &str, suffix: &str) -> (found: bool)
    ensures
        found == finishes_with(text@, suffix@),
{
    let t = text.as_bytes();
    let s = suffix.as_bytes();
    if s.len() > t.len() {
        return false;
    }
    let offset: usize = t.len() - s.len();
    let mut i: usize = 0;
    while i < s.len()
        invariant
            i <= s@.len() <= t@.len() <= usize::MAX,
            t@ == utf8(text@),
            s@ == utf8(suffix@),
            offset == t@.len() - s@.len(),
            forall|j: int| 0 <= j < i ==> t@[offset + j] == s@[j],
        decreases s@.len() - i,
    {
        if t[offset + i] != s[i] {
            proof {
                assert(t@.subrange(offset as int, t@.len() as int)[i as int] == t@[offset + i]);
            }
            return false;
        }
        i = i + 1;
    }
    assert(s@ =~= t@.subrange(offset as int, t@.len() as int));
    true
}

/// `count` copies of one character.
pub open spec fn repeated(fill: char, count: nat) -> Seq<char> {
    Seq::new(count, |i: int| fill)
}

/// Appends `count` copies of the single character of `fill` to `line`.
pub fn append_repeated(line: &mut String, fill: &str, count: usize)
    requires
        fill@.len() == 1,
    ensures
        final(line)@ == old(line)@ + repeated(fill@[0], count as nat),
{
    let mut i: usize = 0;
    assert(line@ =~= old(line)@ + repeated(fill@[0], 0));
    while i < count
        invariant
            i <= count,
            fill@.len() == 1,
            line@ == old(line)@ + repeated(fill@[0], i as nat),
        decreases count - i,
    {
        line.append(fill);
        i = i + 1;
        assert(line@ =~= old(line)@ + repeated(fill@[0], i as nat));
    }
}

/// The character of one decimal digit.
pub open spec fn digit(d: nat) -> char {
    if d == 0 {
        '0'
    } else if d == 1 {
        '1'
    } else if d == 2 {
        '2'
    } else if d == 3 {
        '3'
    } else if d == 4 {
        '4'
    } else if d == 5 {
        '5'
    } else if d == 6 {
        '6'
    } else if d == 7 {
        '7'
    } else if d == 8 {
        '8'
    } else {
        '9'
    }
}

/// The decimal numeral of a natural number, without leading zeros.
pub open spec fn decimal(n: nat) -> Seq<char>
    decreases n,
{
    if n < 10 {
        seq![digit(n)]
    } else {
        decimal(n / 10) + seq![digit(n % 10)]
    }
}

/// The decimal numeral of `n`, padded with zeros on the left to at least
/// `places` digits.
pub open spec fn decimal_padded(n: nat, places: nat) -> Seq<char>
    decreases places,
{
    if places <= 1 {
        decimal(n)
    } else {
        decimal_padded(n / 10, (places - 1) as nat) + seq![digit(n % 10)]
    }
}

/// The text of one decimal digit.
fn digit_text(d: u8) -> (text: &'static str)
    requires
        d < 10,
    ensures
        text@ == seq![digit(d as nat)],
{
    proof {
        reveal_strlit("0");
        reveal_strlit("1");
        reveal_strlit("2");
        reveal_strlit("3");
        reveal_strlit("4");
        reveal_strlit("5");
        reveal_strlit("6");
        reveal_strlit("7");
        reveal_strlit("8");
        reveal_strlit("9");
    }
    let text = if d == 0 {
        "0"
    } else if d == 1 {
        "1"
    } else if d == 2 {
        "2"
    } else if d == 3 {
        "3"
    } else if d == 4 {
        "4"
    } else if d == 5 {
        "5"
    } else if d == 6 {
        "6"
    } else if d == 7 {
        "7"
    } else if d == 8 {
        "8"
    } else {
        "9"
    };
    assert(text@ =~= seq![digit(d as nat)]);
    text
}

/// Appends the decimal numeral of `n` to `line`.
pub fn append_decimal(line: &mut String, n: u128)
    ensures
        final(line)@ == old(line)@ + decimal(n as nat),
    decreases n,
{
    if n >= 10 {
        append_decimal(line, n / 10);
    }
    line.append(digit_text((n % 10) as u8));
    assert(line@ =~= old(line)@ + decimal(n as nat));
}

/// Appends the decimal numeral of `n`, padded with zeros on the left to at
/// least `places` digits, to `line`.
pub fn append_decimal_padded(line: &mut String, n: u128, places: usize)
    ensures
        final(line)@ == old(line)@ + decimal_padded(n as nat, places as nat),
    decreases places,
{
    if places <= 1 {
        append_decimal(line, n);
    } else {
        append_decimal_padded(line, n / 10, places - 1);
        line.append(digit_text((n % 10) as u8));
        assert(line@ =~= old(line)@ + decimal_padded(n as nat, places as nat));
    }
}

/// The decimal numeral of `n`.
pub fn decimal_text(n: u128) -> (text: String)
    ensures
        text@ == decimal(n as nat),
{
    let mut text = String::new();
    append_decimal(&mut text, n);
    assert(text@ =~= decimal(n as nat));
    text
}

} // verus!
