//! Text as sequences of characters: ordering, searching, replacing, trimming
//! and decimal numerals, each with its mathematical counterpart.

use vstd::prelude::*;
use vstd::string::*;

verus! {

broadcast use vstd::string::group_string_axioms;

// ---------------------------------------------------------------------------
// Ordering
// ---------------------------------------------------------------------------

/// Lexicographic order by code point, the order in which object keys and fork
/// branches are kept.
pub open spec fn text_before(a: Seq<char>, b: Seq<char>) -> bool
    decreases a.len(),
{
    if b.len() == 0 {
        false
    } else if a.len() == 0 {
        true
    } else if a[0] == b[0] {
        text_before(a.drop_first(), b.drop_first())
    } else {
        (a[0] as int) < (b[0] as int)
    }
}

/// No text comes before itself.
pub proof fn lemma_before_irreflexive(a: Seq<char>)
    ensures
        !text_before(a, a),
    decreases a.len(),
{
    if a.len() > 0 {
        lemma_before_irreflexive(a.drop_first());
    }
}

/// Of two different texts exactly one comes before the other.
pub proof fn lemma_before_total(a: Seq<char>, b: Seq<char>)
    ensures
        a != b ==> (text_before(a, b) <==> !text_before(b, a)),
    decreases a.len(),
{
    if a.len() > 0 && b.len() > 0 && a[0] == b[0] {
        lemma_before_total(a.drop_first(), b.drop_first());
        if a.drop_first() == b.drop_first() {
            assert(a =~= seq![a[0]] + a.drop_first());
            assert(b =~= seq![b[0]] + b.drop_first());
        }
    } else if a.len() == 0 && b.len() == 0 {
        assert(a =~= b);
    }
}

/// The order is transitive.
pub proof fn lemma_before_transitive(a: Seq<char>, b: Seq<char>, c: Seq<char>)
    requires
        text_before(a, b),
        text_before(b, c),
    ensures
        text_before(a, c),
    decreases a.len(),
{
    if a.len() > 0 && b.len() > 0 && c.len() > 0 && a[0] == b[0] && b[0] == c[0] {
        lemma_before_transitive(a.drop_first(), b.drop_first(), c.drop_first());
    }
}

/// The characters of a text.
pub fn chars_of(text: &str) -> (chars: Vec<char>)
    ensures
        chars@ == text@,
{
    let mut chars: Vec<char> = Vec::new();
    for c in it: text.chars()
        invariant
            it.seq() == text@,
            chars@ == text@.take(it.index()),
    {
        chars.push(c);
        assert(text@.take(it.index() + 1) =~= text@.take(it.index()).push(c));
    }
    assert(text@.take(text@.len() as int) =~= text@);
    chars
}

/// Whether two texts hold the same characters.
pub fn same_text(a: &str, b: &str) -> (same: bool)
    ensures
        same == (a@ == b@),
{
    a.to_owned() == b.to_owned()
}

/// The code point of a character.
fn code_point(c: char) -> (code: u32)
    ensures
        code == c as int,
{
    c as u32
}

/// Whether `a` comes before `b` in the order of [`text_before`].
pub fn comes_before(a: &str, b: &str) -> (before: bool)
    ensures
        before == text_before(a@, b@),
{
    let left = chars_of(a);
    let right = chars_of(b);
    let mut i: usize = 0;
    assert(a@.skip(0) =~= a@);
    assert(b@.skip(0) =~= b@);
    while i < left.len() && i < right.len() && left[i] == right[i]
        invariant
            left@ == a@,
            right@ == b@,
            i <= a@.len(),
            i <= b@.len(),
            text_before(a@, b@) == text_before(a@.skip(i as int), b@.skip(i as int)),
        decreases a@.len() - i,
    {
        assert(a@.skip(i as int).drop_first() =~= a@.skip(i + 1));
        assert(b@.skip(i as int).drop_first() =~= b@.skip(i + 1));
        i += 1;
    }
    if i >= right.len() {
        false
    } else if i >= left.len() {
        true
    } else {
        code_point(left[i]) < code_point(right[i])
    }
}

// ---------------------------------------------------------------------------
// White space
// ---------------------------------------------------------------------------

/// The characters with the Unicode property `White_Space`.
pub open spec fn white_space(c: char) -> bool {
    let n = c as int;
    ||| 0x9 <= n <= 0xd
    ||| n == 0x20
    ||| n == 0x85
    ||| n == 0xa0
    ||| n == 0x1680
    ||| 0x2000 <= n <= 0x200a
    ||| n == 0x2028
    ||| n == 0x2029
    ||| n == 0x202f
    ||| n == 0x205f
    ||| n == 0x3000
}

/// Nothing but white space.
pub open spec fn blank(text: Seq<char>) -> bool {
    forall|i: int| 0 <= i < text.len() ==> white_space(#[trigger] text[i])
}

/// `text` without its leading white space.
pub open spec fn trim_front(text: Seq<char>) -> Seq<char>
    decreases text.len(),
{
    if text.len() > 0 && white_space(text[0]) {
        trim_front(text.drop_first())
    } else {
        text
    }
}

/// `text` without its trailing white space.
pub open spec fn trim_back(text: Seq<char>) -> Seq<char>
    decreases text.len(),
{
    if text.len() > 0 && white_space(text.last()) {
        trim_back(text.drop_last())
    } else {
        text
    }
}

/// `text` without the white space at its two ends.
pub open spec fn trimmed(text: Seq<char>) -> Seq<char> {
    trim_back(trim_front(text))
}

/// Whether a character has the Unicode property `White_Space`.
pub fn is_white_space(c: char) -> (white: bool)
    ensures
        white == white_space(c),
{
    let n: u32 = code_point(c);
    (0x9 <= n && n <= 0xd) || n == 0x20 || n == 0x85 || n == 0xa0 || n == 0x1680 || (0x2000 <= n
        && n <= 0x200a) || n == 0x2028 || n == 0x2029 || n == 0x202f || n == 0x205f || n == 0x3000
}

/// Whether a text holds nothing but white space.
pub fn is_blank(text: &str) -> (yes: bool)
    ensures
        yes == blank(text@),
{
    let chars = chars_of(text);
    let mut i: usize = 0;
    while i < chars.len()
        invariant
            chars@ == text@,
            i <= chars@.len(),
            forall|j: int| 0 <= j < i ==> white_space(#[trigger] text@[j]),
        decreases chars@.len() - i,
    {
        if !is_white_space(chars[i]) {
            assert(!white_space(text@[i as int]));
            return false;
        }
        i += 1;
    }
    true
}

/// A text without the white space at its two ends.
pub fn trim(text: &str) -> (inner: String)
    ensures
        inner@ == trimmed(text@),
{
    let chars = chars_of(text);
    let mut from: usize = 0;
    assert(text@.skip(0) =~= text@);
    while from < chars.len() && is_white_space(chars[from])
        invariant
            chars@ == text@,
            from <= chars@.len(),
            trim_front(text@) == trim_front(text@.skip(from as int)),
        decreases chars@.len() - from,
    {
        assert(text@.skip(from as int).drop_first() =~= text@.skip(from + 1));
        from += 1;
    }
    let ghost front = text@.skip(from as int);
    let mut to: usize = chars.len();
    assert(front.take(to - from) =~= front);
    while to > from && is_white_space(chars[to - 1])
        invariant
            chars@ == text@,
            from <= to <= chars@.len(),
            front == text@.skip(from as int),
            trim_back(front) == trim_back(front.take(to - from)),
        decreases to,
    {
        assert(front.take(to - from).drop_last() =~= front.take(to - from - 1));
        to -= 1;
    }
    assert(text@.subrange(from as int, to as int) =~= front.take(to - from));
    text.substring_char(from, to).to_owned()
}

/// Text that is nothing but white space trims to nothing, and only such text.
pub proof fn lemma_blank_trims_to_nothing(text: Seq<char>)
    ensures
        blank(text) <==> trimmed(text).len() == 0,
    decreases text.len(),
{
    if text.len() > 0 && white_space(text[0]) {
        lemma_blank_trims_to_nothing(text.drop_first());
        let rest = text.drop_first();
        assert(forall|i: int| 0 <= i < rest.len() ==> rest[i] == #[trigger] text[i + 1]);
        if blank(rest) {
            assert forall|i: int| 0 <= i < text.len() implies white_space(#[trigger] text[i]) by {
                if i > 0 {
                    assert(white_space(rest[i - 1]));
                }
            }
        }
        if blank(text) {
            assert forall|i: int| 0 <= i < rest.len() implies white_space(#[trigger] rest[i]) by {
                assert(white_space(text[i + 1]));
            }
        }
    } else if text.len() > 0 {
        lemma_trim_back_keeps_ink(text);
    }
}

proof fn lemma_trim_back_keeps_ink(text: Seq<char>)
    requires
        text.len() > 0,
        !white_space(text[0]),
    ensures
        trim_back(text).len() > 0,
    decreases text.len(),
{
    if white_space(text.last()) {
        lemma_trim_back_keeps_ink(text.drop_last());
    }
}

/// White space around a text is trimmed away with that at its ends.
pub proof fn lemma_trimmed_around(before: Seq<char>, text: Seq<char>, after: Seq<char>)
    requires
        blank(before),
        blank(after),
    ensures
        trimmed(before + text + after) == trimmed(text),
{
    lemma_trim_front_blank(before, text + after);
    assert(before + text + after =~= before + (text + after));
    if blank(text) {
        assert(blank(before + text + after)) by {
            let all = before + text + after;
            assert forall|i: int| 0 <= i < all.len() implies white_space(#[trigger] all[i]) by {
                if i < before.len() {
                    assert(all[i] == before[i]);
                } else if i < before.len() + text.len() {
                    assert(all[i] == text[i - before.len()]);
                } else {
                    assert(all[i] == after[i - before.len() - text.len()]);
                }
            }
        }
        lemma_blank_trims_to_nothing(text);
        lemma_blank_trims_to_nothing(before + text + after);
        assert(trimmed(before + text + after) =~= trimmed(text));
    } else {
        lemma_trim_front_inked(text, after);
        lemma_trim_back_blank(trim_front(text), after);
    }
}

proof fn lemma_trim_front_blank(before: Seq<char>, text: Seq<char>)
    requires
        blank(before),
    ensures
        trim_front(before + text) == trim_front(text),
    decreases before.len(),
{
    let all = before + text;
    if before.len() == 0 {
        assert(all =~= text);
    } else {
        let rest = before.drop_first();
        assert forall|i: int| 0 <= i < rest.len() implies white_space(#[trigger] rest[i]) by {
            assert(rest[i] == before[i + 1]);
        }
        assert(white_space(before[0]));
        assert(all.drop_first() =~= rest + text);
        lemma_trim_front_blank(rest, text);
    }
}

proof fn lemma_trim_back_blank(text: Seq<char>, after: Seq<char>)
    requires
        blank(after),
    ensures
        trim_back(text + after) == trim_back(text),
    decreases after.len(),
{
    let all = text + after;
    if after.len() == 0 {
        assert(all =~= text);
    } else {
        let rest = after.drop_last();
        assert forall|i: int| 0 <= i < rest.len() implies white_space(#[trigger] rest[i]) by {
            assert(rest[i] == after[i]);
        }
        assert(white_space(after[after.len() - 1]));
        assert(all.drop_last() =~= text + rest);
        lemma_trim_back_blank(text, rest);
    }
}

proof fn lemma_trim_front_inked(text: Seq<char>, after: Seq<char>)
    requires
        !blank(text),
    ensures
        trim_front(text + after) == trim_front(text) + after,
    decreases text.len(),
{
    let i = choose|i: int| 0 <= i < text.len() && !white_space(#[trigger] text[i]);
    if white_space(text[0]) {
        let rest = text.drop_first();
        assert(rest[i - 1] == text[i]);
        assert((text + after).drop_first() =~= rest + after);
        lemma_trim_front_inked(rest, after);
    }
}

// ---------------------------------------------------------------------------
// Searching and replacing
// ---------------------------------------------------------------------------

/// `pattern` stands in `text` at position `i`.
pub open spec fn occurs_at(text: Seq<char>, pattern: Seq<char>, i: int) -> bool {
    0 <= i && i + pattern.len() <= text.len() && text.subrange(i, i + pattern.len()) == pattern
}

/// `pattern` stands somewhere in `text`.
pub open spec fn occurs(text: Seq<char>, pattern: Seq<char>) -> bool {
    exists|i: int| occurs_at(text, pattern, i)
}

/// Every occurrence of `pattern` replaced, from left to right, without overlap.
pub open spec fn replaced(text: Seq<char>, pattern: Seq<char>, with: Seq<char>) -> Seq<char>
    decreases text.len(),
{
    if pattern.len() == 0 || text.len() == 0 {
        text
    } else if occurs_at(text, pattern, 0) {
        with + replaced(text.skip(pattern.len() as int), pattern, with)
    } else {
        seq![text[0]] + replaced(text.drop_first(), pattern, with)
    }
}

/// Whether `pattern` stands in `text` at position `i`.
fn matches_at(text: &Vec<char>, pattern: &Vec<char>, i: usize) -> (yes: bool)
    requires
        i <= text@.len(),
    ensures
        yes == occurs_at(text@, pattern@, i as int),
{
    if pattern.len() > text.len() - i {
        return false;
    }
    let mut j: usize = 0;
    while j < pattern.len()
        invariant
            i + pattern.len() <= text.len(),
            j <= pattern@.len(),
            forall|k: int| 0 <= k < j ==> text@[i + k] == #[trigger] pattern@[k],
        decreases pattern@.len() - j,
    {
        if text[i + j] != pattern[j] {
            assert(text@.subrange(i as int, i + pattern@.len())[j as int] != pattern@[j as int]);
            return false;
        }
        j += 1;
    }
    assert(text@.subrange(i as int, i + pattern@.len()) =~= pattern@);
    true
}

/// Whether `pattern` stands somewhere in `text`.
pub fn contains(text: &str, pattern: &str) -> (yes: bool)
    ensures
        yes == occurs(text@, pattern@),
{
    let chars = chars_of(text);
    let wanted = chars_of(pattern);
    let mut i: usize = 0;
    loop
        invariant
            chars@ == text@,
            wanted@ == pattern@,
            i <= chars@.len(),
            forall|j: int| 0 <= j < i ==> !occurs_at(text@, pattern@, j),
        decreases chars@.len() - i,
    {
        if matches_at(&chars, &wanted, i) {
            return true;
        }
        if i == chars.len() {
            return false;
        }
        i += 1;
    }
}

/// A text with every occurrence of `pattern` replaced.
pub fn replace(text: &str, pattern: &str, with: &str) -> (result: String)
    requires
        pattern@.len() > 0,
    ensures
        result@ == replaced(text@, pattern@, with@),
{
    let chars = chars_of(text);
    let wanted = chars_of(pattern);
    let mut result = String::new();
    let mut from: usize = 0;
    let mut i: usize = 0;
    assert(text@.skip(0) =~= text@);
    assert(replaced(text@, pattern@, with@) =~= text@.subrange(0, 0) + replaced(
        text@,
        pattern@,
        with@,
    ));
    while i < chars.len()
        invariant
            chars@ == text@,
            wanted@ == pattern@,
            wanted@.len() > 0,
            from <= i <= chars@.len(),
            replaced(text@, pattern@, with@) == result@ + (text@.subrange(from as int, i as int)
                + replaced(text@.skip(i as int), pattern@, with@)),
        decreases chars@.len() - i,
    {
        let ghost rest = text@.skip(i as int);
        if matches_at(&chars, &wanted, i) {
            assert(occurs_at(rest, pattern@, 0)) by {
                assert(rest.subrange(0, pattern@.len() as int) =~= text@.subrange(
                    i as int,
                    i + pattern@.len(),
                ));
            }
            let ghost before = result@;
            result.append(text.substring_char(from, i));
            result.append(with);
            i += wanted.len();
            from = i;
            assert(rest.skip(pattern@.len() as int) =~= text@.skip(i as int));
            assert(replaced(text@, pattern@, with@) =~= result@ + (text@.subrange(
                from as int,
                i as int,
            ) + replaced(text@.skip(i as int), pattern@, with@)));
        } else {
            assert(!occurs_at(rest, pattern@, 0)) by {
                if occurs_at(rest, pattern@, 0) {
                    assert(rest.subrange(0, pattern@.len() as int) =~= text@.subrange(
                        i as int,
                        i + pattern@.len(),
                    ));
                }
            }
            assert(rest.drop_first() =~= text@.skip(i + 1));
            assert(text@.subrange(from as int, i as int) + (seq![rest[0]] + replaced(
                text@.skip(i + 1),
                pattern@,
                with@,
            )) =~= text@.subrange(from as int, i + 1) + replaced(
                text@.skip(i + 1),
                pattern@,
                with@,
            ));
            i += 1;
        }
    }
    result.append(text.substring_char(from, i));
    assert(text@.skip(i as int) =~= Seq::empty());
    assert(result@ =~= replaced(text@, pattern@, with@));
    result
}

/// Replacing what does not occur changes nothing.
pub proof fn lemma_replace_absent(text: Seq<char>, pattern: Seq<char>, with: Seq<char>)
    requires
        !occurs(text, pattern),
    ensures
        replaced(text, pattern, with) == text,
    decreases text.len(),
{
    if pattern.len() > 0 && text.len() > 0 {
        let rest = text.drop_first();
        assert(!occurs(rest, pattern)) by {
            if occurs(rest, pattern) {
                let i = choose|i: int| occurs_at(rest, pattern, i);
                assert(rest.subrange(i, i + pattern.len()) =~= text.subrange(
                    i + 1,
                    i + 1 + pattern.len(),
                ));
                assert(occurs_at(text, pattern, i + 1));
            }
        }
        lemma_replace_absent(rest, pattern, with);
        assert(seq![text[0]] + rest =~= text);
    }
}

/// The first occurrence of a pattern is replaced, and what stands behind it as if it stood
/// by itself.
pub proof fn lemma_replace_first(
    before: Seq<char>,
    pattern: Seq<char>,
    after: Seq<char>,
    with: Seq<char>,
)
    requires
        pattern.len() > 0,
        forall|i: int|
            0 <= i < before.len() ==> #[trigger] (before + pattern + after).subrange(
                i,
                i + pattern.len(),
            ) != pattern,
    ensures
        replaced(before + pattern + after, pattern, with) == before + with + replaced(
            after,
            pattern,
            with,
        ),
    decreases before.len(),
{
    let text = before + pattern + after;
    if before.len() == 0 {
        assert(text.subrange(0, pattern.len() as int) =~= pattern);
        assert(text.skip(pattern.len() as int) =~= after);
        assert(before + with + replaced(after, pattern, with) =~= with + replaced(
            after,
            pattern,
            with,
        ));
    } else {
        let rest = before.drop_first();
        assert(text.drop_first() =~= rest + pattern + after);
        assert forall|i: int| 0 <= i < rest.len() implies #[trigger] (rest + pattern
            + after).subrange(i, i + pattern.len()) != pattern by {
            assert((rest + pattern + after).subrange(i, i + pattern.len()) =~= text.subrange(
                i + 1,
                i + 1 + pattern.len(),
            ));
        }
        lemma_replace_first(rest, pattern, after, with);
        assert(text.subrange(0int, 0int + pattern.len()) != pattern);
        assert(seq![text[0]] + (rest + with + replaced(after, pattern, with)) =~= before + with
            + replaced(after, pattern, with));
    }
}

/// `text` starts with `prefix`.
pub open spec fn starts_with(text: Seq<char>, prefix: Seq<char>) -> bool {
    prefix.len() <= text.len() && text.take(prefix.len() as int) == prefix
}

/// `text` ends with `suffix`.
pub open spec fn ends_with(text: Seq<char>, suffix: Seq<char>) -> bool {
    suffix.len() <= text.len() && text.skip(text.len() - suffix.len()) == suffix
}

/// What follows `prefix`, where the text starts with it.
pub fn strip_prefix(text: &str, prefix: &str) -> (rest: Option<String>)
    ensures
        match rest {
            Some(rest) => starts_with(text@, prefix@) && rest@ == text@.skip(prefix@.len() as int),
            None => !starts_with(text@, prefix@),
        },
{
    let chars = chars_of(text);
    let wanted = chars_of(prefix);
    assert(text@.len() >= prefix@.len() ==> text@.subrange(0, prefix@.len() as int) =~= text@.take(
        prefix@.len() as int,
    ));
    if matches_at(&chars, &wanted, 0) {
        assert(text@.subrange(prefix@.len() as int, text@.len() as int) =~= text@.skip(
            prefix@.len() as int,
        ));
        Some(text.substring_char(wanted.len(), chars.len()).to_owned())
    } else {
        None
    }
}

/// What precedes `suffix`, where the text ends with it.
pub fn strip_suffix(text: &str, suffix: &str) -> (rest: Option<String>)
    ensures
        match rest {
            Some(rest) => ends_with(text@, suffix@) && rest@ == text@.take(
                text@.len() - suffix@.len(),
            ),
            None => !ends_with(text@, suffix@),
        },
{
    let chars = chars_of(text);
    let wanted = chars_of(suffix);
    if wanted.len() > chars.len() {
        return None;
    }
    let at: usize = chars.len() - wanted.len();
    assert(text@.subrange(at as int, at + suffix@.len()) =~= text@.skip(at as int));
    if matches_at(&chars, &wanted, at) {
        assert(text@.subrange(0, at as int) =~= text@.take(at as int));
        Some(text.substring_char(0, at).to_owned())
    } else {
        None
    }
}

// ---------------------------------------------------------------------------
// Decimal numerals and joining
// ---------------------------------------------------------------------------

/// The character of a decimal digit.
pub open spec fn digit(d: nat) -> char {
    ((0x30 + d) as u8) as char
}

/// The decimal numeral of `n`.
pub open spec fn decimal_text(n: nat) -> Seq<char>
    decreases n,
{
    if n < 10 {
        seq![digit(n)]
    } else {
        decimal_text(n / 10).push(digit(n % 10))
    }
}

/// Different numbers have different numerals.
pub proof fn lemma_decimal_injective(a: nat, b: nat)
    requires
        decimal_text(a) == decimal_text(b),
    ensures
        a == b,
    decreases a,
{
    let x = decimal_text(a);
    lemma_decimal_length(a);
    lemma_decimal_length(b);
    assert(x.last() == digit(a % 10) && x.last() == digit(b % 10));
    assert(a % 10 == b % 10);
    if a >= 10 {
        assert(x.drop_last() =~= decimal_text(a / 10));
        assert(x.drop_last() =~= decimal_text(b / 10));
        lemma_decimal_injective(a / 10, b / 10);
    }
}

proof fn lemma_decimal_length(n: nat)
    ensures
        decimal_text(n).len() >= 1,
        decimal_text(n).len() == 1 <==> n < 10,
    decreases n,
{
    if n >= 10 {
        lemma_decimal_length(n / 10);
    }
}

/// The decimal numeral of a number.
pub fn decimal(n: u64) -> (numeral: String)
    ensures
        numeral@ == decimal_text(n as nat),
    decreases n,
{
    let mut numeral = if n < 10 {
        String::new()
    } else {
        decimal(n / 10)
    };
    let d: u64 = n % 10;
    proof {
        reveal_strlit("0");
        reveal_strlit("1");
        reveal_strlit("2");
        reveal_strlit("3");
        reveal_strlit("4");
        reveal_strlit("5");
        reveal_strlit("6");
        reveal_strlit("7");
        reveal_strlit("8");
        reveal_strlit("9");
    }
    let shown = if d == 0 {
        "0"
    } else if d == 1 {
        "1"
    } else if d == 2 {
        "2"
    } else if d == 3 {
        "3"
    } else if d == 4 {
        "4"
    } else if d == 5 {
        "5"
    } else if d == 6 {
        "6"
    } else if d == 7 {
        "7"
    } else if d == 8 {
        "8"
    } else {
        "9"
    };
    assert(shown@ =~= seq![digit(d as nat)]);
    numeral.append(shown);
    assert(numeral@ =~= decimal_text(n as nat));
    numeral
}

/// Two texts, one after the other.
pub fn join(a: &str, b: &str) -> (text: String)
    ensures
        text@ == a@ + b@,
{
    let mut text = a.to_owned();
    text.append(b);
    text
}

/// Three texts, one after the other.
pub fn join3(a: &str, b: &str, c: &str) -> (text: String)
    ensures
        text@ == a@ + b@ + c@,
{
    let mut text = a.to_owned();
    text.append(b);
    text.append(c);
    text
}

// ---------------------------------------------------------------------------
// Values in messages
// ---------------------------------------------------------------------------

/// The text that `{:?}` renders for a text: quoted, with escapes.
pub uninterp spec fn debug_text(text: Seq<char>) -> Seq<char>;

/// The `Debug` rendering of a `str`.
#[verifier::external_body]
pub(crate) fn quoted(text: &str) -> (shown: String)
    ensures
        shown@ == debug_text(text@),
{
    format!("{:?}", text)
}

/// The decimal numeral of an integer, with its sign where it is negative.
pub open spec fn integer_text(n: int) -> Seq<char> {
    if n < 0 {
        "-"@ + decimal_text((-n) as nat)
    } else {
        decimal_text(n as nat)
    }
}

/// The decimal numeral of an integer, with its sign where it is negative.
pub fn integer(n: i64) -> (numeral: String)
    ensures
        numeral@ == integer_text(n as int),
{
    if n < 0 {
        let magnitude: u64 = (-(n + 1)) as u64 + 1;
        join("-", decimal(magnitude).as_str())
    } else {
        decimal(n as u64)
    }
}

// ---------------------------------------------------------------------------
// Laws
// ---------------------------------------------------------------------------

/// Trimming gives what stands between the white space at the two ends: a text that neither
/// begins nor ends with white space, whatever white space stands around it.
pub proof fn lemma_trimming_gives_the_middle(
    before: Seq<char>,
    text: Seq<char>,
    after: Seq<char>,
)
    requires
        blank(before),
        blank(after),
        text.len() > 0,
        !white_space(text[0]),
        !white_space(text.last()),
    ensures
        trimmed(before + text + after) == text,
        trimmed(before).len() == 0,
{
    lemma_trimmed_around(before, text, after);
    lemma_blank_trims_to_nothing(before);
}

/// A pattern occurs in a text exactly where the text is the pattern with something before
/// it and something behind it.
pub proof fn lemma_occurrence_is_in_the_middle(text: Seq<char>, pattern: Seq<char>)
    ensures
        occurs(text, pattern) <==> exists|before: Seq<char>, after: Seq<char>|
            text == #[trigger] (before + pattern + after),
{
    if occurs(text, pattern) {
        let i = choose|i: int| occurs_at(text, pattern, i);
        let before = text.take(i);
        let after = text.skip(i + pattern.len());
        assert(text =~= before + pattern + after);
    }
    if exists|before: Seq<char>, after: Seq<char>| text == #[trigger] (before + pattern + after) {
        let (before, after) = choose|before: Seq<char>, after: Seq<char>|
            text == #[trigger] (before + pattern + after);
        assert(text.subrange(before.len() as int, (before.len() + pattern.len()) as int)
            =~= pattern);
        assert(occurs_at(text, pattern, before.len() as int));
    }
}

/// Texts are ordered by the first character in which they differ, and a text comes before
/// all that begin with it.
pub proof fn lemma_order_goes_by_the_first_difference(
    common: Seq<char>,
    a: char,
    x: Seq<char>,
    b: char,
    y: Seq<char>,
)
    requires
        a != b,
    ensures
        text_before(common + seq![a] + x, common + seq![b] + y) <==> (a as int) < (b as int),
        text_before(common, common + seq![a] + x),
        !text_before(common + seq![a] + x, common),
    decreases common.len(),
{
    let left = common + seq![a] + x;
    let right = common + seq![b] + y;
    if common.len() == 0 {
        assert(left[0] == a && right[0] == b);
    } else {
        let rest = common.drop_first();
        assert(left.drop_first() =~= rest + seq![a] + x);
        assert(right.drop_first() =~= rest + seq![b] + y);
        lemma_order_goes_by_the_first_difference(rest, a, x, b, y);
    }
}

/// The numeral of a number is that of its tens with the digit of its ones behind it, and the
/// digits are the characters from `0` to `9`; a negative number has a minus before it.
pub proof fn lemma_numerals_go_digit_by_digit(tens: nat, ones: nat)
    requires
        ones < 10,
    ensures
        decimal_text(ones).len() == 1,
        decimal_text(ones)[0] as int == 48 + ones,
        tens > 0 ==> decimal_text(10 * tens + ones) == decimal_text(tens) + decimal_text(ones),
        integer_text(tens as int) == decimal_text(tens),
        tens > 0 ==> integer_text(-(tens as int)) == "-"@ + decimal_text(tens),
{
    if tens > 0 {
        let n = 10 * tens + ones;
        assert(n / 10 == tens && n % 10 == ones);
        assert(decimal_text(tens) + decimal_text(ones) =~= decimal_text(tens).push(digit(ones)));
    }
}

/// The white space characters: the controls from tab to carriage return, the space, the
/// next line, and the spaces and separators of Unicode. A text is blank where it has no
/// other.
pub proof fn lemma_white_space_is_listed(c: char, text: Seq<char>)
    ensures
        white_space(c) <==> seq![
            9int,
            10,
            11,
            12,
            13,
            32,
            0x85,
            0xa0,
            0x1680,
            0x2000,
            0x2001,
            0x2002,
            0x2003,
            0x2004,
            0x2005,
            0x2006,
            0x2007,
            0x2008,
            0x2009,
            0x200a,
            0x2028,
            0x2029,
            0x202f,
            0x205f,
            0x3000,
        ].contains(c as int),
        blank(text) <==> !exists|i: int|
            0 <= i < text.len() && !white_space(#[trigger] text[i]),
        blank(Seq::empty()),
{
    let listed = seq![
        9int,
        10,
        11,
        12,
        13,
        32,
        0x85,
        0xa0,
        0x1680,
        0x2000,
        0x2001,
        0x2002,
        0x2003,
        0x2004,
        0x2005,
        0x2006,
        0x2007,
        0x2008,
        0x2009,
        0x200a,
        0x2028,
        0x2029,
        0x202f,
        0x205f,
        0x3000,
    ];
    let n = c as int;
    if 9 <= n <= 13 {
        assert(listed[n - 9] == n);
    } else if n == 32 {
        assert(listed[5] == n);
    } else if n == 0x85 {
        assert(listed[6] == n);
    } else if n == 0xa0 {
        assert(listed[7] == n);
    } else if n == 0x1680 {
        assert(listed[8] == n);
    } else if 0x2000 <= n <= 0x200a {
        assert(listed[n - 0x2000 + 9] == n);
    } else if n == 0x2028 {
        assert(listed[20] == n);
    } else if n == 0x2029 {
        assert(listed[21] == n);
    } else if n == 0x202f {
        assert(listed[22] == n);
    } else if n == 0x205f {
        assert(listed[23] == n);
    } else if n == 0x3000 {
        assert(listed[24] == n);
    }
}

/// A text starts with another exactly where it is the other with something behind it, and
/// ends with it exactly where it is the other with something before it.
pub proof fn lemma_ends_are_what_stands_there(text: Seq<char>, part: Seq<char>)
    ensures
        starts_with(text, part) <==> exists|rest: Seq<char>| text == #[trigger] (part + rest),
        ends_with(text, part) <==> exists|rest: Seq<char>| text == #[trigger] (rest + part),
{
    if starts_with(text, part) {
        assert(text =~= part + text.skip(part.len() as int));
    }
    if ends_with(text, part) {
        assert(text =~= text.take(text.len() - part.len()) + part);
    }
    if exists|rest: Seq<char>| text == #[trigger] (part + rest) {
        let rest = choose|rest: Seq<char>| text == #[trigger] (part + rest);
        assert(text.take(part.len() as int) =~= part);
    }
    if exists|rest: Seq<char>| text == #[trigger] (rest + part) {
        let rest = choose|rest: Seq<char>| text == #[trigger] (rest + part);
        assert(text.skip(text.len() - part.len()) =~= part);
    }
}

} // verus!
