//! Text as sequences of characters: numbers, order, search and trimming.
use vstd::prelude::*;

verus! {

/// What `str::to_lowercase` gives for a text.
pub uninterp spec fn lowercase(text: Seq<char>) -> Seq<char>;

/// `str::to_lowercase` follows the Unicode tables: nothing is said of it here but
/// that the text alone decides the result.
pub assume_specification[ str::to_lowercase ](text: &str) -> (lower: String)
    ensures
        lower@ == lowercase(text@),
;

/// `String::push` puts one character at the end.
pub assume_specification[ String::push ](text: &mut String, c: char)
    ensures
        final(text)@ == old(text)@.push(c),
;

/// The characters of a text, in order.
pub fn chars_of(text: &str) -> (chars: Vec<char>)
    ensures
        chars@ == text@,
{
    let mut chars: Vec<char> = Vec::new();
    for c in it: text.chars()
        invariant
            it.seq() == text@,
            chars@ == text@.take(it.index() as int),
    {
        chars.push(c);
    }
    chars
}

/// The digit that stands for `n`, which is below ten.
pub open spec fn digit(n: nat) -> char {
    (48 + n) as char
}

/// A number in decimal, without leading zeros.
pub open spec fn digits(n: nat) -> Seq<char>
    decreases n,
{
    if n < 10 {
        seq![digit(n)]
    } else {
        digits(n / 10).push(digit(n % 10))
    }
}

/// A number in decimal, with a minus sign in front of a negative one.
pub open spec fn signed_digits(n: int) -> Seq<char> {
    if n < 0 {
        seq!['-'] + digits((-n) as nat)
    } else {
        digits(n as nat)
    }
}

/// Appends a number in decimal.
pub fn push_number(text: &mut String, n: u64)
    ensures
        final(text)@ == old(text)@ + digits(n as nat),
    decreases n,
{
    if n >= 10 {
        push_number(text, n / 10);
    }
    text.push((48 + (n % 10) as u8) as char);
}

/// Appends a number in decimal, with a minus sign in front of a negative one.
pub fn push_signed(text: &mut String, n: i64)
    ensures
        final(text)@ == old(text)@ + signed_digits(n as int),
{
    if n < 0 {
        text.push('-');
        push_number(text, (-(n + 1)) as u64 + 1);
    } else {
        push_number(text, n as u64);
    }
}

/// Whether `a` stands before `b`: by the first character in which they differ, or
/// because `b` goes on where `a` ends.
pub open spec fn text_lt(a: Seq<char>, b: Seq<char>) -> bool
    decreases a.len(),
{
    if b.len() == 0 {
        false
    } else if a.len() == 0 {
        true
    } else if a[0] != b[0] {
        (a[0] as int) < (b[0] as int)
    } else {
        text_lt(a.drop_first(), b.drop_first())
    }
}

/// Two texts that share their first `n` characters are ordered by the rest.
proof fn lemma_text_lt_skip(a: Seq<char>, b: Seq<char>, n: nat)
    requires
        n <= a.len(),
        n <= b.len(),
        a.take(n as int) == b.take(n as int),
    ensures
        text_lt(a, b) == text_lt(a.skip(n as int), b.skip(n as int)),
    decreases n,
{
    if n == 0 {
        assert(a.skip(0) == a);
        assert(b.skip(0) == b);
    } else {
        assert(a[0] == a.take(n as int)[0]);
        assert(b[0] == b.take(n as int)[0]);
        assert(a.drop_first().take(n - 1) == a.take(n as int).drop_first());
        assert(b.drop_first().take(n - 1) == b.take(n as int).drop_first());
        lemma_text_lt_skip(a.drop_first(), b.drop_first(), (n - 1) as nat);
        assert(a.drop_first().skip(n - 1) == a.skip(n as int));
        assert(b.drop_first().skip(n - 1) == b.skip(n as int));
    }
}

/// The order of texts has no cycles of two.
pub proof fn law_text_order_is_strict(a: Seq<char>, b: Seq<char>)
    ensures
        text_lt(a, b) ==> !text_lt(b, a),
    decreases a.len(),
{
    if a.len() > 0 && b.len() > 0 && a[0] == b[0] {
        law_text_order_is_strict(a.drop_first(), b.drop_first());
    }
}

/// Of two different texts one stands before the other.
pub proof fn law_text_order_is_total(a: Seq<char>, b: Seq<char>)
    ensures
        text_lt(a, b) || text_lt(b, a) || a == b,
    decreases a.len(),
{
    if a.len() > 0 && b.len() > 0 && a[0] == b[0] {
        law_text_order_is_total(a.drop_first(), b.drop_first());
        if a.drop_first() == b.drop_first() {
            assert(a == seq![a[0]] + a.drop_first());
            assert(b == seq![b[0]] + b.drop_first());
        }
    } else if a.len() == 0 && b.len() == 0 {
        assert(a == b);
    }
}

/// What stands before a text also stands before all that it stands before.
pub proof fn law_text_order_is_transitive(a: Seq<char>, b: Seq<char>, c: Seq<char>)
    requires
        text_lt(a, b),
        text_lt(b, c),
    ensures
        text_lt(a, c),
    decreases a.len(),
{
    if a.len() > 0 && b.len() > 0 && c.len() > 0 && a[0] == b[0] && b[0] == c[0] {
        law_text_order_is_transitive(a.drop_first(), b.drop_first(), c.drop_first());
    }
}

/// Whether `a` stands before `b`.
pub fn comes_before(a: &str, b: &str) -> (before: bool)
    ensures
        before == text_lt(a@, b@),
{
    let left: Vec<char> = chars_of(a);
    let right: Vec<char> = chars_of(b);
    let mut i: usize = 0;
    while i < left.len() && i < right.len() && left[i] == right[i]
        invariant
            i <= left@.len(),
            i <= right@.len(),
            left@.take(i as int) == right@.take(i as int),
        decreases left@.len() - i,
    {
        assert(left@.take(i + 1) == left@.take(i as int).push(left@[i as int]));
        assert(right@.take(i + 1) == right@.take(i as int).push(right@[i as int]));
        i += 1;
    }
    proof {
        lemma_text_lt_skip(left@, right@, i as nat);
        let l = left@.skip(i as int);
        let r = right@.skip(i as int);
        assert(l.len() > 0 ==> l[0] == left@[i as int]);
        assert(r.len() > 0 ==> r[0] == right@[i as int]);
    }
    if i >= right.len() {
        false
    } else if i >= left.len() {
        true
    } else {
        left[i] < right[i]
    }
}

/// Whether `part` occurs in `text`.
pub open spec fn occurs_in(part: Seq<char>, text: Seq<char>) -> bool {
    exists|i: int|
        0 <= i <= text.len() - part.len() && #[trigger] text.subrange(i, i + part.len()) == part
}

/// Whether `part` occurs in `text`.
pub fn contains(text: &str, part: &str) -> (found: bool)
    ensures
        found == occurs_in(part@, text@),
{
    let whole: Vec<char> = chars_of(text);
    let piece: Vec<char> = chars_of(part);
    let n: usize = piece.len();
    if whole.len() < n {
        return false;
    }
    let mut i: usize = 0;
    while i <= whole.len() - n
        invariant
            whole@ == text@,
            piece@ == part@,
            n == piece@.len(),
            n <= whole@.len(),
            i <= whole@.len() - n + 1,
            forall|k: int| 0 <= k < i ==> #[trigger] text@.subrange(k, k + n) != part@,
        decreases whole@.len() - n + 1 - i,
    {
        let mut j: usize = 0;
        while j < n && whole[i + j] == piece[j]
            invariant
                whole@ == text@,
                piece@ == part@,
                n == piece@.len(),
                i + n <= whole.len(),
                j <= n,
                forall|k: int| 0 <= k < j ==> whole@[i + k] == piece@[k],
            decreases n - j,
        {
            j += 1;
        }
        if j == n {
            assert(text@.subrange(i as int, i + n) == part@);
            return true;
        }
        assert(text@.subrange(i as int, i + n)[j as int] != part@[j as int]);
        if i == whole.len() - n {
            return false;
        }
        i += 1;
    }
    false
}

/// The characters that Unicode counts as white space.
pub open spec fn is_white(c: char) -> bool {
    let n = c as int;
    ||| 0x9 <= n <= 0xd
    ||| n == 0x20
    ||| n == 0x85
    ||| n == 0xa0
    ||| n == 0x1680
    ||| 0x2000 <= n <= 0x200a
    ||| n == 0x2028
    ||| n == 0x2029
    ||| n == 0x202f
    ||| n == 0x205f
    ||| n == 0x3000
}

fn white(c: char) -> (w: bool)
    ensures
        w == is_white(c),
{
    let n: u32 = c as u32;
    (0x9 <= n && n <= 0xd) || n == 0x20 || n == 0x85 || n == 0xa0 || n == 0x1680 || (0x2000 <= n
        && n <= 0x200a) || n == 0x2028 || n == 0x2029 || n == 0x202f || n == 0x205f || n == 0x3000
}

/// A text without the white space at its two ends.
#[verifier::opaque]
pub open spec fn trimmed(text: Seq<char>) -> Seq<char>
    decreases text.len(),
{
    if text.len() > 0 && is_white(text[0]) {
        trimmed(text.drop_first())
    } else if text.len() > 0 && is_white(text.last()) {
        trimmed(text.drop_last())
    } else {
        text
    }
}

proof fn lemma_trimmed(text: Seq<char>)
    ensures
        text.len() == 0 ==> trimmed(text) == text,
        text.len() > 0 && is_white(text[0]) ==> trimmed(text) == trimmed(text.drop_first()),
        text.len() > 0 && !is_white(text[0]) && is_white(text.last()) ==> trimmed(text) == trimmed(
            text.drop_last(),
        ),
        text.len() > 0 && !is_white(text[0]) && !is_white(text.last()) ==> trimmed(text) == text,
{
    reveal_with_fuel(trimmed, 2);
}

/// A text without the white space at its two ends.
pub fn trim(text: &str) -> (inner: String)
    ensures
        inner@ == trimmed(text@),
{
    let chars: Vec<char> = chars_of(text);
    let mut from: usize = 0;
    assert(text@.subrange(0, text@.len() as int) == text@);
    while from < chars.len() && white(chars[from])
        invariant
            chars@ == text@,
            from <= chars@.len(),
            trimmed(text@.subrange(from as int, text@.len() as int)) == trimmed(text@),
        decreases chars@.len() - from,
    {
        proof {
            lemma_trimmed(text@.subrange(from as int, text@.len() as int));
        }
        assert(text@.subrange(from as int, text@.len() as int).drop_first() == text@.subrange(
            from + 1,
            text@.len() as int,
        ));
        from += 1;
    }
    let mut to: usize = chars.len();
    while from < to && white(chars[to - 1])
        invariant
            chars@ == text@,
            from <= to <= chars@.len(),
            from < to ==> !is_white(chars@[from as int]),
            trimmed(text@.subrange(from as int, to as int)) == trimmed(text@),
        decreases to,
    {
        proof {
            lemma_trimmed(text@.subrange(from as int, to as int));
        }
        assert(text@.subrange(from as int, to as int).drop_last() == text@.subrange(
            from as int,
            to - 1,
        ));
        to -= 1;
    }
    proof {
        lemma_trimmed(text@.subrange(from as int, to as int));
    }
    text.substring_char(from, to).to_owned()
}

/// Whether two texts are the same.
pub fn same(a: &str, b: &str) -> (equal: bool)
    ensures
        equal == (a@ == b@),
{
    let first = chars_of(a);
    let second = chars_of(b);
    if first.len() != second.len() {
        return false;
    }
    let mut i: usize = 0;
    while i < first.len()
        invariant
            first@ == a@,
            second@ == b@,
            first@.len() == second@.len(),
            i <= first@.len(),
            forall|j: int| 0 <= j < i ==> a@[j] == b@[j],
        decreases first@.len() - i,
    {
        if first[i] != second[i] {
            return false;
        }
        i += 1;
    }
    assert(a@ == b@);
    true
}

/// The texts of a list of strings.
pub open spec fn lines(list: Seq<String>) -> Seq<Seq<char>> {
    Seq::new(list.len(), |i: int| list[i]@)
}

/// `a` and `b`, one behind the other.
pub fn joined_text(a: &str, b: &str) -> (text: String)
    ensures
        text@ == a@ + b@,
{
    let mut text: String = a.to_owned();
    text.append(b);
    text
}

/// The number that a text of decimal digits stands for.
pub open spec fn number_of(text: Seq<char>) -> int
    decreases text.len(),
{
    if text.len() == 0 {
        0
    } else {
        10 * number_of(text.drop_last()) + (text.last() as int - '0' as int)
    }
}

/// The digits of a number stand for it. They are digits, and the first one is no zero, but
/// for the number zero.
pub proof fn law_digits_tell_the_number(n: nat)
    ensures
        number_of(digits(n)) == n,
        digits(n).len() > 0,
        n > 0 ==> digits(n)[0] != '0',
        forall|i: int|
            0 <= i < digits(n).len() ==> '0' as int <= (#[trigger] digits(n)[i]) as int <= '9' as int,
    decreases n,
{
    if n < 10 {
        assert(digits(n).drop_last() == Seq::<char>::empty());
        assert(number_of(digits(n).drop_last()) == 0);
    } else {
        law_digits_tell_the_number(n / 10);
        assert(digits(n).drop_last() == digits(n / 10));
        assert(digits(n)[0] == digits(n / 10)[0]);
        assert forall|i: int| 0 <= i < digits(n).len() implies '0' as int <= (
        #[trigger] digits(n)[i]) as int <= '9' as int by {
            if i < digits(n / 10).len() {
                assert(digits(n)[i] == digits(n / 10)[i]);
            }
        }
    }
}

/// A number below zero stands as a minus sign and the number without it.
pub proof fn law_sign_stands_in_front(n: int)
    ensures
        n >= 0 ==> signed_digits(n) == digits(n as nat),
        n < 0 ==> signed_digits(n) == seq!['-'] + signed_digits(-n),
        (signed_digits(n)[0] == '-') == (n < 0),
{
    if n >= 0 {
        law_digits_tell_the_number(n as nat);
        assert('0' as int <= digits(n as nat)[0] as int);
    }
}

/// The first character in which two texts differ decides which comes first: the one with
/// the smaller character. A text comes before all longer ones that begin with it.
pub proof fn law_first_difference_decides(a: Seq<char>, b: Seq<char>, n: int)
    requires
        0 <= n <= a.len(),
        n < b.len(),
        forall|i: int| 0 <= i < n ==> a[i] == #[trigger] b[i],
        n < a.len() ==> (a[n] as int) < (b[n] as int),
    ensures
        text_lt(a, b),
        !text_lt(b, a),
{
    assert(a.take(n) =~= b.take(n));
    lemma_text_lt_skip(a, b, n as nat);
    lemma_text_lt_skip(b, a, n as nat);
    assert(n < a.len() ==> a.skip(n)[0] == a[n]);
    assert(b.skip(n)[0] == b[n]);
}

/// A text occurs in what it stands in, and only there.
pub proof fn law_parts_occur(part: Seq<char>, text: Seq<char>, before: Seq<char>, after: Seq<char>)
    ensures
        text == before + part + after ==> occurs_in(part, text),
        occurs_in(part, text) ==> exists|front: Seq<char>, back: Seq<char>|
            text == #[trigger] (front + part + back),
{
    if text == before + part + after {
        let i = before.len() as int;
        assert(text.subrange(i, i + part.len()) =~= part);
    }
    if occurs_in(part, text) {
        let i = choose|i: int|
            0 <= i <= text.len() - part.len() && #[trigger] text.subrange(i, i + part.len())
                == part;
        let (front, back) = (text.take(i), text.skip(i + part.len()));
        assert(text =~= front + part + back) by {
            assert forall|k: int| 0 <= k < text.len() implies text[k] == (front + part + back)[k] by {
                if i <= k < i + part.len() {
                    assert(text.subrange(i, i + part.len())[k - i] == part[k - i]);
                }
            }
        }
    }
}

/// Of the characters of the keyboard, the blank and the five that move the cursor are
/// white, and no other.
pub proof fn law_white_space_is_not_seen(c: char)
    requires
        (c as int) < 128,
    ensures
        is_white(c) == (c == ' ' || 9 <= c as int && c as int <= 13),
{
}

/// What is trimmed is white space, at the two ends; what stays has none there, and is as it
/// was.
pub proof fn law_trimming_cuts_white_ends(text: Seq<char>)
    ensures
        exists|from: int, to: int|
            0 <= from <= to <= text.len() && trimmed(text) == #[trigger] text.subrange(from, to) && (
            forall|i: int| 0 <= i < from || to <= i < text.len() ==> is_white(#[trigger] text[i])),
        trimmed(text).len() > 0 ==> !is_white(trimmed(text)[0]) && !is_white(trimmed(text).last()),
    decreases text.len(),
{
    lemma_trimmed(text);
    if text.len() > 0 && is_white(text[0]) {
        let rest = text.drop_first();
        law_trimming_cuts_white_ends(rest);
        let (from, to) = choose|from: int, to: int|
            0 <= from <= to <= rest.len() && trimmed(rest) == #[trigger] rest.subrange(from, to) && (
            forall|i: int| 0 <= i < from || to <= i < rest.len() ==> is_white(#[trigger] rest[i]));
        assert(rest.subrange(from, to) =~= text.subrange(from + 1, to + 1));
        assert forall|i: int| 0 <= i < from + 1 || to + 1 <= i < text.len() implies is_white(
            #[trigger] text[i],
        ) by {
            if i > 0 {
                assert(is_white(rest[i - 1]));
            }
        }
    } else if text.len() > 0 && is_white(text.last()) {
        let rest = text.drop_last();
        law_trimming_cuts_white_ends(rest);
        let (from, to) = choose|from: int, to: int|
            0 <= from <= to <= rest.len() && trimmed(rest) == #[trigger] rest.subrange(from, to) && (
            forall|i: int| 0 <= i < from || to <= i < rest.len() ==> is_white(#[trigger] rest[i]));
        assert(rest.subrange(from, to) =~= text.subrange(from, to));
        assert forall|i: int| 0 <= i < from || to <= i < text.len() implies is_white(
            #[trigger] text[i],
        ) by {
            if i < rest.len() {
                assert(is_white(rest[i]));
            }
        }
    } else {
        assert(text.subrange(0, text.len() as int) =~= text);
    }
}

/// Nothing is left of a text just where all of it is white.
pub proof fn law_blank_texts_are_white(text: Seq<char>)
    ensures
        trimmed(text).len() == 0 <==> forall|i: int|
            0 <= i < text.len() ==> is_white(#[trigger] text[i]),
{
    law_trimming_cuts_white_ends(text);
    let (from, to) = choose|from: int, to: int|
        0 <= from <= to <= text.len() && trimmed(text) == #[trigger] text.subrange(from, to) && (
        forall|i: int| 0 <= i < from || to <= i < text.len() ==> is_white(#[trigger] text[i]));
    if trimmed(text).len() > 0 {
        assert(trimmed(text)[0] == text[from]);
    }
}

/// The texts of a list are those of its strings, in their order.
pub proof fn law_lines_stay_in_order(list: Seq<String>, i: int)
    ensures
        lines(list).len() == list.len(),
        0 <= i < list.len() ==> lines(list)[i] == list[i]@,
{
}

} // verus!
