//! Text as sequences of characters: the sum of code points that places a
//! course number in a bucket, the lexicographic order by which a listing is
//! sorted, and the white space that is dropped from the ends of a line.

use vstd::prelude::*;
use vstd::std_specs::iter::IteratorSpec;

verus! {

/// What a sequence of strings holds: the text of each.
pub open spec fn texts(strings: Seq<String>) -> Seq<Seq<char>> {
    Seq::new(strings.len(), |i: int| strings[i]@)
}

/// The sum of the code points of `s`.
pub open spec fn code_point_sum(s: Seq<char>) -> nat
    decreases s.len(),
{
    if s.len() == 0 {
        0
    } else {
        code_point_sum(s.drop_last()) + (s.last() as u32 as nat)
    }
}

/// The bucket of `key` in a table of `size` buckets: the sum of its code
/// points, reduced modulo `size`.
pub open spec fn bucket_of(key: Seq<char>, size: nat) -> nat
    recommends
        size >= 1,
{
    code_point_sum(key) % size
}

/// How one text stands to another.
#[derive(Debug, Clone, Copy, PartialEq, Eq, Structural)]
pub enum TextOrder {
    /// It comes first.
    Before,
    /// The two are the same text.
    Same,
    /// It comes second.
    After,
}

/// How `a` stands to `b` lexicographically: the first position at which the
/// two differ decides by code point, and where neither differs before one
/// ends, the shorter comes first.
pub open spec fn text_order(a: Seq<char>, b: Seq<char>) -> TextOrder
    decreases a.len(),
{
    if a.len() == 0 {
        if b.len() == 0 {
            TextOrder::Same
        } else {
            TextOrder::Before
        }
    } else if b.len() == 0 {
        TextOrder::After
    } else if a[0] == b[0] {
        text_order(a.drop_first(), b.drop_first())
    } else if (a[0] as u32) < (b[0] as u32) {
        TextOrder::Before
    } else {
        TextOrder::After
    }
}

/// `a` comes no later than `b` in lexicographic order.
pub open spec fn lex_le(a: Seq<char>, b: Seq<char>) -> bool {
    text_order(a, b) != TextOrder::After
}

/// Two texts are ranked `Same` exactly when they are equal.
pub proof fn lemma_same_is_equal(a: Seq<char>, b: Seq<char>)
    ensures
        text_order(a, b) == TextOrder::Same <==> a == b,
    decreases a.len(),
{
    if a.len() > 0 && b.len() > 0 && a[0] == b[0] {
        lemma_same_is_equal(a.drop_first(), b.drop_first());
        if a.drop_first() == b.drop_first() {
            assert(a =~= seq![a[0]] + a.drop_first());
            assert(b =~= seq![b[0]] + b.drop_first());
        }
    } else if a.len() == 0 && b.len() == 0 {
        assert(a =~= b);
    }
}

/// Swapping the two texts swaps `Before` and `After`.
pub proof fn lemma_order_flips(a: Seq<char>, b: Seq<char>)
    ensures
        text_order(a, b) == TextOrder::Before <==> text_order(b, a) == TextOrder::After,
        text_order(a, b) == TextOrder::Same <==> text_order(b, a) == TextOrder::Same,
    decreases a.len(),
{
    if a.len() > 0 && b.len() > 0 {
        if a[0] == b[0] {
            lemma_order_flips(a.drop_first(), b.drop_first());
        } else {
            vstd::utf8::char_u32_cast(a[0], a[0] as u32);
            vstd::utf8::char_u32_cast(b[0], b[0] as u32);
        }
    }
}

/// The order is total: of two texts, one comes no later than the other.
pub proof fn lemma_lex_le_total(a: Seq<char>, b: Seq<char>)
    ensures
        lex_le(a, b) || lex_le(b, a),
{
    lemma_order_flips(a, b);
}

/// Two texts that each come no later than the other are equal.
pub proof fn lemma_lex_le_antisymmetric(a: Seq<char>, b: Seq<char>)
    requires
        lex_le(a, b),
        lex_le(b, a),
    ensures
        a == b,
{
    lemma_order_flips(a, b);
    lemma_same_is_equal(a, b);
}

/// Every text comes no later than itself.
pub proof fn lemma_lex_le_reflexive(a: Seq<char>)
    ensures
        lex_le(a, a),
{
    lemma_same_is_equal(a, a);
}

/// The order is transitive.
pub proof fn lemma_lex_le_transitive(a: Seq<char>, b: Seq<char>, c: Seq<char>)
    requires
        lex_le(a, b),
        lex_le(b, c),
    ensures
        lex_le(a, c),
    decreases a.len(),
{
    if a.len() > 0 && b.len() > 0 && c.len() > 0 {
        if a[0] == b[0] && b[0] == c[0] {
            lemma_lex_le_transitive(a.drop_first(), b.drop_first(), c.drop_first());
        }
    }
}

/// Ranks two texts lexicographically by code point.
pub fn order_texts(a: &str, b: &str) -> (order: TextOrder)
    ensures
        order == text_order(a@, b@),
{
    let mut left = a.chars();
    let mut right = b.chars();
    loop
        invariant
            text_order(a@, b@) == text_order(left.remaining(), right.remaining()),
            left.obeys_prophetic_iter_laws(),
            right.obeys_prophetic_iter_laws(),
            left.decrease() is Some,
        decreases left.decrease()->0,
    {
        let ghost left_before = left;
        let ghost right_before = right;
        let x = left.next();
        let y = right.next();
        proof {
            vstd::string::next_postcondition(&left_before, &left, x);
            vstd::string::next_postcondition(&right_before, &right, y);
        }
        match (x, y) {
            (None, None) => {
                return TextOrder::Same;
            },
            (None, Some(_)) => {
                return TextOrder::Before;
            },
            (Some(_), None) => {
                return TextOrder::After;
            },
            (Some(p), Some(q)) => {
                if p != q {
                    if (p as u32) < (q as u32) {
                        return TextOrder::Before;
                    } else {
                        return TextOrder::After;
                    }
                }
            },
        }
    }
}

/// The bucket of `key` among `size` buckets.
pub fn bucket_index(key: &str, size: usize) -> (bucket: usize)
    requires
        size >= 1,
    ensures
        bucket == bucket_of(key@, size as nat),
        bucket < size,
{
    let mut acc: usize = 0;
    let mut chars = key.chars();
    let ghost mut seen: Seq<char> = Seq::empty();
    proof {
        vstd::arithmetic::div_mod::lemma_small_mod(0, size as nat);
    }
    loop
        invariant
            size >= 1,
            acc < size,
            acc == code_point_sum(seen) % (size as nat),
            seen + chars.remaining() == key@,
            chars.obeys_prophetic_iter_laws(),
            chars.decrease() is Some,
        decreases chars.decrease()->0,
    {
        let ghost before = chars;
        let next = chars.next();
        proof {
            vstd::string::next_postcondition(&before, &chars, next);
        }
        match next {
            Some(c) => {
                let code: u32 = c as u32;
                let wide: u128 = (acc as u128 + code as u128) % (size as u128);
                proof {
                    let longer = seen.push(c);
                    assert(longer.drop_last() =~= seen);
                    assert(longer + chars.remaining() =~= key@);
                    vstd::arithmetic::div_mod::lemma_add_mod_noop(
                        code_point_sum(seen) as int,
                        code as int,
                        size as int,
                    );
                    vstd::arithmetic::div_mod::lemma_add_mod_noop(
                        acc as int,
                        code as int,
                        size as int,
                    );
                    vstd::arithmetic::div_mod::lemma_small_mod(acc as nat, size as nat);
                    seen = longer;
                }
                acc = wide as usize;
            },
            None => {
                assert(seen =~= key@);
                return acc;
            },
        }
    }
}

/// `c` is white space: a character with the Unicode property White_Space.
pub open spec fn whitespace(c: char) -> bool {
    let code = c as u32;
    ||| 0x09 <= code <= 0x0D
    ||| code == 0x20
    ||| code == 0x85
    ||| code == 0xA0
    ||| code == 0x1680
    ||| 0x2000 <= code <= 0x200A
    ||| code == 0x2028
    ||| code == 0x2029
    ||| code == 0x202F
    ||| code == 0x205F
    ||| code == 0x3000
}

/// The number of white-space characters that `text` begins with.
pub open spec fn leading(text: Seq<char>) -> nat
    decreases text.len(),
{
    if text.len() == 0 || !whitespace(text.first()) {
        0
    } else {
        1 + leading(text.drop_first())
    }
}

/// The number of white-space characters that `text` ends with.
pub open spec fn trailing(text: Seq<char>) -> nat
    decreases text.len(),
{
    if text.len() == 0 || !whitespace(text.last()) {
        0
    } else {
        1 + trailing(text.drop_last())
    }
}

/// `text` without the white space at its two ends.
pub open spec fn trimmed(text: Seq<char>) -> Seq<char> {
    if leading(text) >= text.len() {
        Seq::empty()
    } else {
        text.subrange(leading(text) as int, text.len() - trailing(text))
    }
}

/// Where the first `count` characters are white space and the next, if
/// there is one, is not, the text begins with `count` of them.
pub proof fn lemma_leading(text: Seq<char>, count: int)
    requires
        0 <= count <= text.len(),
        forall|i: int| 0 <= i < count ==> whitespace(#[trigger] text[i]),
        count < text.len() ==> !whitespace(text[count]),
    ensures
        leading(text) == count,
    decreases count,
{
    if count > 0 {
        let rest = text.drop_first();
        assert forall|i: int| 0 <= i < count - 1 implies whitespace(#[trigger] rest[i]) by {
            assert(rest[i] == text[i + 1]);
        }
        lemma_leading(rest, count - 1);
    }
}

/// Where the last `count` characters are white space and the one before
/// them, if there is one, is not, the text ends with `count` of them.
pub proof fn lemma_trailing(text: Seq<char>, count: int)
    requires
        0 <= count <= text.len(),
        forall|i: int| text.len() - count <= i < text.len() ==> whitespace(#[trigger] text[i]),
        count < text.len() ==> !whitespace(text[text.len() - count - 1]),
    ensures
        trailing(text) == count,
    decreases count,
{
    if count > 0 {
        let rest = text.drop_last();
        assert forall|i: int| rest.len() - (count - 1) <= i < rest.len() implies whitespace(
            #[trigger] rest[i],
        ) by {
            assert(rest[i] == text[i]);
        }
        lemma_trailing(rest, count - 1);
    }
}

/// What `leading` counts: the white space that the text begins with, up to
/// its first character that is none.
pub proof fn lemma_leading_is_exact(text: Seq<char>)
    ensures
        leading(text) <= text.len(),
        forall|i: int| 0 <= i < leading(text) ==> whitespace(#[trigger] text[i]),
        leading(text) < text.len() ==> !whitespace(text[leading(text) as int]),
    decreases text.len(),
{
    if text.len() > 0 && whitespace(text.first()) {
        let rest = text.drop_first();
        lemma_leading_is_exact(rest);
        assert forall|i: int| 0 <= i < leading(text) implies whitespace(#[trigger] text[i]) by {
            if i > 0 {
                assert(text[i] == rest[i - 1]);
            }
        }
        if leading(text) < text.len() {
            assert(text[leading(text) as int] == rest[leading(rest) as int]);
        }
    }
}

/// What `trailing` counts: the white space that the text ends with, back to
/// its last character that is none.
pub proof fn lemma_trailing_is_exact(text: Seq<char>)
    ensures
        trailing(text) <= text.len(),
        forall|i: int|
            text.len() - trailing(text) <= i < text.len() ==> whitespace(#[trigger] text[i]),
        trailing(text) < text.len() ==> !whitespace(text[text.len() - trailing(text) - 1]),
    decreases text.len(),
{
    if text.len() > 0 && whitespace(text.last()) {
        let rest = text.drop_last();
        lemma_trailing_is_exact(rest);
        assert forall|i: int| text.len() - trailing(text) <= i < text.len() implies whitespace(
            #[trigger] text[i],
        ) by {
            if i < text.len() - 1 {
                assert(text[i] == rest[i]);
            }
        }
        if trailing(text) < text.len() {
            assert(text[text.len() - trailing(text) - 1] == rest[rest.len() - trailing(rest)
                - 1]);
        }
    }
}

/// What trimming does: the text is white space, then the trimmed text, then
/// white space again, and the trimmed text neither begins nor ends with
/// white space.
pub proof fn lemma_trimmed_is_exact(text: Seq<char>) -> (ends: (Seq<char>, Seq<char>))
    ensures
        text == ends.0 + trimmed(text) + ends.1,
        forall|i: int| 0 <= i < ends.0.len() ==> whitespace(#[trigger] ends.0[i]),
        forall|i: int| 0 <= i < ends.1.len() ==> whitespace(#[trigger] ends.1[i]),
        trimmed(text).len() > 0 ==> !whitespace(trimmed(text).first()) && !whitespace(
            trimmed(text).last(),
        ),
{
    lemma_leading_is_exact(text);
    lemma_trailing_is_exact(text);
    let first = leading(text) as int;
    if first >= text.len() {
        assert(text =~= text + trimmed(text) + Seq::<char>::empty());
        (text, Seq::empty())
    } else {
        let end = text.len() - trailing(text);
        if end <= first {
            assert(whitespace(text[first]));
        }
        let before = text.take(first);
        let after = text.skip(end);
        assert(text =~= before + trimmed(text) + after);
        assert(trimmed(text).first() == text[first]);
        assert(trimmed(text).last() == text[end - 1]);
        (before, after)
    }
}

/// Tells whether `c` is white space.
pub fn is_whitespace(c: char) -> (yes: bool)
    ensures
        yes == whitespace(c),
{
    let code: u32 = c as u32;
    (0x09 <= code && code <= 0x0D) || code == 0x20 || code == 0x85 || code == 0xA0 || code
        == 0x1680 || (0x2000 <= code && code <= 0x200A) || code == 0x2028 || code == 0x2029
        || code == 0x202F || code == 0x205F || code == 0x3000
}

/// The characters of `text`.
pub fn chars_of(text: &str) -> (chars: Vec<char>)
    ensures
        chars@ == text@,
{
    let mut chars: Vec<char> = Vec::new();
    let mut rest = text.chars();
    loop
        invariant
            chars@ + rest.remaining() == text@,
            rest.obeys_prophetic_iter_laws(),
            rest.decrease() is Some,
        decreases rest.decrease()->0,
    {
        let ghost before = rest;
        let ghost seen = chars@;
        let next = rest.next();
        proof {
            vstd::string::next_postcondition(&before, &rest, next);
        }
        match next {
            Some(c) => {
                chars.push(c);
                assert(chars@ + rest.remaining() =~= seen + before.remaining());
            },
            None => {
                assert(chars@ =~= chars@ + rest.remaining());
                return chars;
            },
        }
    }
}

/// `text` without the white space at its two ends.
pub fn trim<'a>(text: &'a str) -> (inner: &'a str)
    ensures
        inner@ == trimmed(text@),
{
    let chars = chars_of(text);
    let mut first: usize = 0;
    while first < chars.len() && is_whitespace(chars[first])
        invariant
            first <= chars@.len(),
            forall|i: int| 0 <= i < first ==> whitespace(#[trigger] chars@[i]),
        decreases chars@.len() - first,
    {
        first += 1;
    }
    let mut end: usize = chars.len();
    while end > first && is_whitespace(chars[end - 1])
        invariant
            first <= end <= chars@.len(),
            forall|i: int| end <= i < chars@.len() ==> whitespace(#[trigger] chars@[i]),
        decreases end,
    {
        end -= 1;
    }
    proof {
        lemma_leading(chars@, first as int);
        if first < chars@.len() {
            lemma_trailing(chars@, chars@.len() - end);
        }
        assert(chars@.subrange(first as int, end as int) =~= trimmed(text@));
    }
    text.substring_char(first, end)
}

} // verus!
