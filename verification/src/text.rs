//! Text operations on `&str`, each specified on the sequence of characters.
use vstd::prelude::*;
use vstd::std_specs::iter::IteratorSpec;
use vstd::utf8::*;

verus! {

// ---------------------------------------------------------------------------
// Positions: characters and bytes
// ---------------------------------------------------------------------------

/// The number of bytes that the UTF-8 encoding of `text` takes.
pub open spec fn byte_len(text: Seq<char>) -> nat {
    encode_utf8(text).len()
}

/// The encoding of a concatenation is the concatenation of the encodings.
pub proof fn lemma_encode_concat(a: Seq<char>, b: Seq<char>)
    ensures
        encode_utf8(a + b) == encode_utf8(a) + encode_utf8(b),
    decreases a.len(),
{
    if a.len() == 0 {
        assert(a + b =~= b);
        assert(encode_utf8(a) =~= Seq::<u8>::empty());
        assert(encode_utf8(a) + encode_utf8(b) =~= encode_utf8(b));
    } else {
        lemma_encode_concat(a.drop_first(), b);
        assert((a + b).drop_first() =~= a.drop_first() + b);
        assert(encode_utf8(a + b) =~= encode_utf8(a) + encode_utf8(b));
    }
}

/// One more character adds its own bytes to the encoding.
pub proof fn lemma_encode_push(text: Seq<char>, c: char)
    ensures
        encode_utf8(text.push(c)) == encode_utf8(text) + encode_scalar(c as u32),
{
    let one = seq![c];
    assert(text.push(c) =~= text + one);
    lemma_encode_concat(text, one);
    assert(one.drop_first() =~= Seq::<char>::empty());
    assert(encode_utf8(one) =~= encode_scalar(c as u32) + encode_utf8(one.drop_first()));
    assert(encode_utf8(one) =~= encode_scalar(c as u32));
}

/// Every character takes at least one byte.
pub proof fn lemma_byte_len(text: Seq<char>)
    ensures
        text.len() <= byte_len(text),
        text.len() == 0 <==> byte_len(text) == 0,
    decreases text.len(),
{
    if text.len() > 0 {
        lemma_byte_len(text.drop_first());
    }
}

/// Texts with the same encoding are the same text.
pub proof fn lemma_encode_injective(a: Seq<char>, b: Seq<char>)
    requires
        encode_utf8(a) == encode_utf8(b),
    ensures
        a == b,
{
    encode_utf8_decode_utf8(a);
    encode_utf8_decode_utf8(b);
}

/// The encoding of the first `k` characters ends on a character boundary.
pub proof fn lemma_char_boundary(text: Seq<char>, k: int)
    requires
        0 <= k <= text.len(),
    ensures
        is_char_boundary(encode_utf8(text), byte_len(text.take(k)) as int),
        byte_len(text.take(k)) <= byte_len(text),
        encode_utf8(text).subrange(0, byte_len(text.take(k)) as int) == encode_utf8(text.take(k)),
        encode_utf8(text).subrange(byte_len(text.take(k)) as int, byte_len(text) as int)
            == encode_utf8(text.skip(k)),
    decreases k,
{
    let bytes = encode_utf8(text);
    let head = encode_utf8(text.take(k));
    assert(text =~= text.take(k) + text.skip(k));
    lemma_encode_concat(text.take(k), text.skip(k));
    assert(bytes.subrange(0, head.len() as int) =~= head);
    assert(bytes.subrange(head.len() as int, bytes.len() as int) =~= encode_utf8(text.skip(k)));
    encode_utf8_valid_utf8(text);
    if k == 0 {
        assert(text.take(0) =~= Seq::<char>::empty());
    } else {
        let rest = text.drop_first();
        lemma_char_boundary(rest, k - 1);
        encode_utf8_first_scalar(text);
        assert(text.take(k).drop_first() =~= rest.take(k - 1));
        assert(text.take(k)[0] == text[0]);
        assert(pop_first_scalar(bytes) =~= encode_utf8(rest));
    }
}

/// A character boundary of the encoding is where the encoding of some prefix ends.
pub proof fn lemma_boundary_prefix(text: Seq<char>, at: int) -> (k: int)
    requires
        is_char_boundary(encode_utf8(text), at),
        0 <= at <= byte_len(text),
    ensures
        0 <= k <= text.len(),
        byte_len(text.take(k)) == at,
        encode_utf8(text).subrange(0, at) == encode_utf8(text.take(k)),
{
    let bytes = encode_utf8(text);
    encode_utf8_valid_utf8(text);
    encode_utf8_decode_utf8(text);
    valid_utf8_split(bytes, at);
    decode_utf8_split(bytes, at);
    let head = bytes.subrange(0, at);
    let k = decode_utf8(head).len() as int;
    decode_utf8_encode_utf8(head);
    assert(text.take(k) =~= decode_utf8(head));
    k
}

/// A longer prefix takes more bytes.
pub proof fn lemma_prefix_bytes(text: Seq<char>, j: int, k: int)
    requires
        0 <= j < k <= text.len(),
    ensures
        byte_len(text.take(j)) < byte_len(text.take(k)),
{
    let piece = text.subrange(j, k);
    assert(text.take(k) =~= text.take(j) + piece);
    lemma_encode_concat(text.take(j), piece);
    lemma_byte_len(piece);
}

/// The number of bytes in the UTF-8 encoding of `c`.
pub fn utf8_width(c: char) -> (width: usize)
    ensures
        width == encode_scalar(c as u32).len(),
        1 <= width <= 4,
{
    let scalar: u32 = c as u32;
    if scalar < 0x80 {
        1
    } else if scalar < 0x800 {
        2
    } else if scalar < 0x10000 {
        3
    } else {
        4
    }
}

/// Splits `text` after its first `count` characters.
pub fn split_after(text: &str, count: usize) -> (parts: (&str, &str))
    requires
        count <= text@.len(),
    ensures
        parts.0@ == text@.take(count as int),
        parts.1@ == text@.skip(count as int),
{
    let limit = text.as_bytes().len();
    let mut chars = text.chars();
    let mut passed: usize = 0;
    let mut at: usize = 0;
    assert(text@.skip(0) =~= text@);
    assert(text@.take(0) =~= Seq::<char>::empty());
    while passed < count
        invariant
            limit == byte_len(text@),
            passed <= count <= text@.len(),
            at == byte_len(text@.take(passed as int)),
            chars.remaining() == text@.skip(passed as int),
            chars.obeys_prophetic_iter_laws(),
        decreases count - passed,
    {
        match chars.next() {
            Some(c) => {
                proof {
                    assert(text@.take(passed + 1) =~= text@.take(passed as int).push(c));
                    lemma_encode_push(text@.take(passed as int), c);
                    lemma_char_boundary(text@, passed + 1);
                    assert(text@.skip(passed as int).drop_first() =~= text@.skip(passed + 1));
                }
                at = at + utf8_width(c);
            },
            None => {},
        }
        passed = passed + 1;
    }
    proof {
        lemma_char_boundary(text@, count as int);
    }
    let parts = text.split_at(at);
    proof {
        lemma_encode_injective(parts.0@, text@.take(count as int));
        lemma_encode_injective(parts.1@, text@.skip(count as int));
    }
    parts
}

// ---------------------------------------------------------------------------
// Building text
// ---------------------------------------------------------------------------

/// `String::push` appends one character to the end of the string.
pub assume_specification[ String::push ](text: &mut String, c: char)
    ensures
        final(text)@ == old(text)@.push(c),
;

/// The text of an optional string.
pub open spec fn text_option(text: Option<String>) -> Option<Seq<char>> {
    match text {
        Some(t) => Some(t@),
        None => None,
    }
}

/// The text of an optional string slice.
pub open spec fn text_given(text: Option<&str>) -> Option<Seq<char>> {
    match text {
        Some(t) => Some(t@),
        None => None,
    }
}

/// Whether two texts hold the same characters.
pub fn same(a: &str, b: &str) -> (equal: bool)
    ensures
        equal == (a@ == b@),
{
    let left = a.as_bytes();
    let right = b.as_bytes();
    if left.len() != right.len() {
        return false;
    }
    let mut i: usize = 0;
    while i < left.len()
        invariant
            left@ == encode_utf8(a@),
            right@ == encode_utf8(b@),
            left.len() == right.len(),
            i <= left.len(),
            forall|j: int| 0 <= j < i ==> left@[j] == right@[j],
        decreases left.len() - i,
    {
        if left[i] != right[i] {
            return false;
        }
        i = i + 1;
    }
    proof {
        assert(left@ =~= right@);
        lemma_encode_injective(a@, b@);
    }
    true
}

/// The texts held by a list of string slices.
pub open spec fn texts(parts: Seq<&str>) -> Seq<Seq<char>> {
    parts.map_values(|part: &str| part@)
}

/// `parts` with `separator` between neighbours.
pub open spec fn joined(parts: Seq<Seq<char>>, separator: Seq<char>) -> Seq<char>
    decreases parts.len(),
{
    if parts.len() == 0 {
        Seq::empty()
    } else if parts.len() == 1 {
        parts[0]
    } else {
        joined(parts.drop_last(), separator) + separator + parts.last()
    }
}

/// Joins `parts` with `separator` between neighbours.
pub fn join(parts: &[&str], separator: &str) -> (text: String)
    ensures
        text@ == joined(texts(parts@), separator@),
{
    let mut text = String::new();
    let mut i: usize = 0;
    while i < parts.len()
        invariant
            i <= parts.len(),
            text@ == joined(texts(parts@.take(i as int)), separator@),
        decreases parts.len() - i,
    {
        proof {
            let next = texts(parts@.take(i + 1));
            assert(next.drop_last() =~= texts(parts@.take(i as int)));
            assert(next.last() == parts@[i as int]@);
            if i == 0 {
                assert(text@ =~= Seq::<char>::empty());
            }
        }
        if i > 0 {
            text.append(separator);
        }
        text.append(parts[i]);
        proof {
            if i == 0 {
                assert(text@ =~= parts@[0]@);
            }
        }
        i = i + 1;
    }
    assert(parts@.take(i as int) =~= parts@);
    text
}

/// The decimal digit that stands for `d`.
pub open spec fn digit(d: nat) -> char {
    ((48 + d) as u8) as char
}

/// The number `n` written in decimal, without leading zeros.
pub open spec fn decimal(n: nat) -> Seq<char>
    decreases n,
{
    if n < 10 {
        seq![digit(n)]
    } else {
        decimal(n / 10).push(digit(n % 10))
    }
}

/// Writes `n` in decimal.
pub fn write_decimal(n: u64) -> (text: String)
    ensures
        text@ == decimal(n as nat),
    decreases n,
{
    let mut text = if n < 10 {
        String::new()
    } else {
        write_decimal(n / 10)
    };
    let last: u8 = 48 + (n % 10) as u8;
    text.push(last as char);
    assert(n < 10 ==> text@ =~= decimal(n as nat));
    text
}

// ---------------------------------------------------------------------------
// Classes of characters
// ---------------------------------------------------------------------------

/// The characters with Unicode's `White_Space` property.
pub open spec fn is_white_space(c: char) -> bool {
    ||| '\u{9}' <= c <= '\u{d}'
    ||| c == ' '
    ||| c == '\u{85}'
    ||| c == '\u{a0}'
    ||| c == '\u{1680}'
    ||| '\u{2000}' <= c <= '\u{200a}'
    ||| c == '\u{2028}'
    ||| c == '\u{2029}'
    ||| c == '\u{202f}'
    ||| c == '\u{205f}'
    ||| c == '\u{3000}'
}

/// Whether `c` has Unicode's `White_Space` property.
pub fn white_space(c: char) -> (white: bool)
    ensures
        white == is_white_space(c),
{
    ('\u{9}' <= c && c <= '\u{d}') || c == ' ' || c == '\u{85}' || c == '\u{a0}' || c
        == '\u{1680}' || ('\u{2000}' <= c && c <= '\u{200a}') || c == '\u{2028}' || c
        == '\u{2029}' || c == '\u{202f}' || c == '\u{205f}' || c == '\u{3000}'
}

/// `c` with an ASCII capital letter replaced by its small letter.
pub open spec fn lowered_char(c: char) -> char {
    if 'A' <= c <= 'Z' {
        ((c as u8 + 32) as u8) as char
    } else {
        c
    }
}

/// `text` with every ASCII capital letter replaced by its small letter.
pub open spec fn lowered(text: Seq<char>) -> Seq<char> {
    text.map_values(|c: char| lowered_char(c))
}

/// Replaces the ASCII capital letters of `text` by small letters.
pub fn lower(text: &str) -> (low: String)
    ensures
        low@ == lowered(text@),
{
    let mut low = String::new();
    let mut chars = text.chars();
    let ghost mut passed: int = 0;
    assert(text@.skip(0) =~= text@);
    loop
        invariant
            0 <= passed <= text@.len(),
            chars.remaining() == text@.skip(passed),
            chars.obeys_prophetic_iter_laws(),
            low@ =~= lowered(text@.take(passed)),
        ensures
            passed == text@.len(),
            low@ =~= lowered(text@.take(passed)),
        decreases text@.len() - passed,
    {
        match chars.next() {
            Some(c) => {
                let small = if 'A' <= c && c <= 'Z' {
                    (c as u8 + 32) as char
                } else {
                    c
                };
                low.push(small);
                proof {
                    assert(c == text@[passed]);
                    assert(text@.skip(passed).drop_first() =~= text@.skip(passed + 1));
                    passed = passed + 1;
                }
            },
            None => {
                break;
            },
        }
    }
    assert(text@.take(passed) =~= text@);
    low
}

// ---------------------------------------------------------------------------
// Trimming and cutting
// ---------------------------------------------------------------------------

/// The characters for which `is_white_space` holds.
pub open spec fn white() -> spec_fn(char) -> bool {
    |c: char| is_white_space(c)
}

/// The characters equal to `wanted`.
pub open spec fn only(wanted: char) -> spec_fn(char) -> bool {
    |c: char| c == wanted
}

/// `text` without the characters of `class` at its start.
pub open spec fn trimmed_start(text: Seq<char>, class: spec_fn(char) -> bool) -> Seq<char>
    decreases text.len(),
{
    if text.len() > 0 && class(text[0]) {
        trimmed_start(text.drop_first(), class)
    } else {
        text
    }
}

/// `text` without the characters of `class` at its end.
pub open spec fn trimmed_end(text: Seq<char>, class: spec_fn(char) -> bool) -> Seq<char>
    decreases text.len(),
{
    if text.len() > 0 && class(text.last()) {
        trimmed_end(text.drop_last(), class)
    } else {
        text
    }
}

/// `text` without the characters of `class` at either end.
pub open spec fn trimmed_both(text: Seq<char>, class: spec_fn(char) -> bool) -> Seq<char> {
    trimmed_end(trimmed_start(text, class), class)
}

/// `text` without the white space at either end.
pub open spec fn trimmed(text: Seq<char>) -> Seq<char> {
    trimmed_both(text, white())
}

/// Dropping `k` leading characters of the class leaves the trimmed text as it was.
proof fn lemma_trimmed_start(text: Seq<char>, class: spec_fn(char) -> bool, k: int)
    requires
        0 <= k <= text.len(),
        forall|i: int| 0 <= i < k ==> class(#[trigger] text[i]),
        k == text.len() || !class(text[k]),
    ensures
        trimmed_start(text, class) == text.skip(k),
    decreases k,
{
    if k == 0 {
        assert(text.skip(0) =~= text);
    } else {
        let rest = text.drop_first();
        assert forall|i: int| 0 <= i < k - 1 implies class(#[trigger] rest[i]) by {
            assert(rest[i] == text[i + 1]);
        }
        lemma_trimmed_start(rest, class, k - 1);
        assert(rest.skip(k - 1) =~= text.skip(k));
    }
}

/// The text up to its last character outside the class is the trimmed text.
proof fn lemma_trimmed_end(text: Seq<char>, class: spec_fn(char) -> bool, k: int)
    requires
        0 <= k <= text.len(),
        forall|i: int| k <= i < text.len() ==> class(#[trigger] text[i]),
        k == 0 || !class(text[k - 1]),
    ensures
        trimmed_end(text, class) == text.take(k),
    decreases text.len(),
{
    if k == text.len() {
        assert(text.take(k) =~= text);
    } else {
        lemma_trimmed_end(text.drop_last(), class, k);
        assert(text.drop_last().take(k) =~= text.take(k));
    }
}

/// Trimming does not lengthen a text, and leaves none of the class at the end that it trims.
pub proof fn lemma_trimmed_lengths(text: Seq<char>, class: spec_fn(char) -> bool)
    ensures
        trimmed_start(text, class).len() <= text.len(),
        trimmed_end(text, class).len() <= text.len(),
        trimmed_start(text, class).len() == text.len() ==> trimmed_start(text, class) == text,
    decreases text.len(),
{
    if text.len() > 0 {
        lemma_trimmed_lengths(text.drop_first(), class);
        lemma_trimmed_lengths(text.drop_last(), class);
    }
}

/// A text that is trimmed away holds nothing but the class.
pub proof fn lemma_trimmed_to_nothing(text: Seq<char>, class: spec_fn(char) -> bool)
    requires
        trimmed_both(text, class).len() == 0,
    ensures
        forall|i: int| 0 <= i < text.len() ==> class(#[trigger] text[i]),
    decreases text.len(),
{
    if text.len() > 0 {
        if class(text[0]) {
            let rest = text.drop_first();
            lemma_trimmed_to_nothing(rest, class);
            assert forall|i: int| 0 <= i < text.len() implies class(#[trigger] text[i]) by {
                if i > 0 {
                    assert(rest[i - 1] == text[i]);
                }
            }
        } else {
            lemma_trimmed_end_all(text, class);
        }
    }
}

/// A text whose end is trimmed to nothing holds nothing but the class.
proof fn lemma_trimmed_end_all(text: Seq<char>, class: spec_fn(char) -> bool)
    requires
        trimmed_end(text, class).len() == 0,
    ensures
        forall|i: int| 0 <= i < text.len() ==> class(#[trigger] text[i]),
    decreases text.len(),
{
    if text.len() > 0 {
        let rest = text.drop_last();
        lemma_trimmed_end_all(rest, class);
        assert forall|i: int| 0 <= i < text.len() implies class(#[trigger] text[i]) by {
            if i < rest.len() {
                assert(rest[i] == text[i]);
            }
        }
    }
}

/// The class that `wanted` picks: that one character, or white space where it is `None`.
spec fn class_of(wanted: Option<char>) -> spec_fn(char) -> bool {
    match wanted {
        Some(c) => only(c),
        None => white(),
    }
}

fn in_class(c: char, wanted: Option<char>) -> (member: bool)
    ensures
        member == class_of(wanted)(c),
{
    match wanted {
        Some(w) => c == w,
        None => white_space(c),
    }
}

fn trim_start_class(text: &str, wanted: Option<char>) -> (rest: &str)
    ensures
        rest@ == trimmed_start(text@, class_of(wanted)),
{
    let limit: usize = text.as_bytes().len();
    let mut chars = text.chars();
    let mut passed: usize = 0;
    proof {
        lemma_byte_len(text@);
        assert(text@.skip(0) =~= text@);
    }
    loop
        invariant_except_break
            chars.remaining() == text@.skip(passed as int),
        invariant
            text@.len() <= limit,
            passed <= text@.len(),
            chars.obeys_prophetic_iter_laws(),
            forall|i: int| 0 <= i < passed ==> class_of(wanted)(#[trigger] text@[i]),
        ensures
            passed <= text@.len(),
            forall|i: int| 0 <= i < passed ==> class_of(wanted)(#[trigger] text@[i]),
            passed == text@.len() || !class_of(wanted)(text@[passed as int]),
        decreases text@.len() - passed,
    {
        match chars.next() {
            Some(c) => {
                assert(c == text@[passed as int]);
                if !in_class(c, wanted) {
                    break;
                }
                assert(text@.skip(passed as int).drop_first() =~= text@.skip(passed + 1));
                passed = passed + 1;
            },
            None => {
                break;
            },
        }
    }
    proof {
        lemma_trimmed_start(text@, class_of(wanted), passed as int);
    }
    split_after(text, passed).1
}

fn trim_end_class(text: &str, wanted: Option<char>) -> (rest: &str)
    ensures
        rest@ == trimmed_end(text@, class_of(wanted)),
{
    let total: usize = text.unicode_len();
    let mut chars = text.chars();
    let mut passed: usize = 0;
    let mut kept: usize = 0;
    assert(text@.skip(0) =~= text@);
    while passed < total
        invariant
            total == text@.len(),
            kept <= passed <= total,
            chars.remaining() == text@.skip(passed as int),
            chars.obeys_prophetic_iter_laws(),
            forall|i: int| kept <= i < passed ==> class_of(wanted)(#[trigger] text@[i]),
            kept == 0 || !class_of(wanted)(text@[kept - 1]),
        decreases total - passed,
    {
        match chars.next() {
            Some(c) => {
                assert(c == text@[passed as int]);
                assert(text@.skip(passed as int).drop_first() =~= text@.skip(passed + 1));
                passed = passed + 1;
                if !in_class(c, wanted) {
                    kept = passed;
                }
            },
            None => {
                passed = total;
            },
        }
    }
    proof {
        lemma_trimmed_end(text@, class_of(wanted), kept as int);
    }
    split_after(text, kept).0
}

/// Removes the white space at both ends of `text`.
pub fn trim(text: &str) -> (rest: &str)
    ensures
        rest@ == trimmed(text@),
{
    trim_end_class(trim_start_class(text, None), None)
}

/// Removes every `c` at the start of `text`.
pub fn trim_start_char(text: &str, c: char) -> (rest: &str)
    ensures
        rest@ == trimmed_start(text@, only(c)),
{
    trim_start_class(text, Some(c))
}

/// Removes every `c` at the end of `text`.
pub fn trim_end_char(text: &str, c: char) -> (rest: &str)
    ensures
        rest@ == trimmed_end(text@, only(c)),
{
    trim_end_class(text, Some(c))
}

/// Removes every `c` at both ends of `text`.
pub fn trim_char(text: &str, c: char) -> (rest: &str)
    ensures
        rest@ == trimmed_both(text@, only(c)),
{
    trim_end_char(trim_start_char(text, c), c)
}

/// The first `count` characters of `text`, or all of it where it is shorter.
pub open spec fn first_chars(text: Seq<char>, count: nat) -> Seq<char> {
    if text.len() <= count {
        text
    } else {
        text.take(count as int)
    }
}

/// Cuts `text` after `count` characters.
pub fn take_chars(text: &str, count: usize) -> (head: &str)
    ensures
        head@ == first_chars(text@, count as nat),
{
    if text.unicode_len() <= count {
        text
    } else {
        split_after(text, count).0
    }
}

/// What follows `prefix` in `text`, where `text` starts with it.
pub open spec fn after_prefix(text: Seq<char>, prefix: Seq<char>) -> Option<Seq<char>> {
    if prefix.is_prefix_of(text) {
        Some(text.skip(prefix.len() as int))
    } else {
        None
    }
}

/// Removes `prefix` from the start of `text`.
pub fn strip_prefix<'a>(text: &'a str, prefix: &str) -> (rest: Option<&'a str>)
    ensures
        rest is Some == after_prefix(text@, prefix@) is Some,
        rest matches Some(tail) ==> after_prefix(text@, prefix@) == Some(tail@),
{
    let length: usize = prefix.unicode_len();
    if text.unicode_len() < length {
        return None;
    }
    let parts = split_after(text, length);
    proof {
        assert(prefix@.is_prefix_of(text@) <==> text@.take(prefix@.len() as int) =~= prefix@);
    }
    if same(parts.0, prefix) {
        Some(parts.1)
    } else {
        None
    }
}

// ---------------------------------------------------------------------------
// Splitting
// ---------------------------------------------------------------------------

/// The position of the first `c` in `text`, or its length where there is none.
pub open spec fn position(text: Seq<char>, c: char) -> nat
    decreases text.len(),
{
    if text.len() == 0 || text[0] == c {
        0
    } else {
        1 + position(text.drop_first(), c)
    }
}

proof fn lemma_position(text: Seq<char>, c: char, k: int)
    requires
        0 <= k <= text.len(),
        forall|i: int| 0 <= i < k ==> #[trigger] text[i] != c,
        k == text.len() || text[k] == c,
    ensures
        position(text, c) == k,
    decreases k,
{
    if k > 0 {
        let rest = text.drop_first();
        assert forall|i: int| 0 <= i < k - 1 implies #[trigger] rest[i] != c by {
            assert(rest[i] == text[i + 1]);
        }
        lemma_position(rest, c, k - 1);
    }
}

/// Finds the first `c` in `text`.
fn find(text: &str, c: char) -> (found: Option<usize>)
    ensures
        found matches Some(k) ==> k < text@.len() && k == position(text@, c),
        found is None ==> position(text@, c) == text@.len(),
{
    let limit: usize = text.as_bytes().len();
    let mut chars = text.chars();
    let mut passed: usize = 0;
    proof {
        lemma_byte_len(text@);
        assert(text@.skip(0) =~= text@);
    }
    loop
        invariant
            text@.len() <= limit,
            passed <= text@.len(),
            chars.remaining() == text@.skip(passed as int),
            chars.obeys_prophetic_iter_laws(),
            forall|i: int| 0 <= i < passed ==> #[trigger] text@[i] != c,
        decreases text@.len() - passed,
    {
        match chars.next() {
            Some(x) => {
                assert(x == text@[passed as int]);
                if x == c {
                    proof {
                        lemma_position(text@, c, passed as int);
                    }
                    return Some(passed);
                }
                assert(text@.skip(passed as int).drop_first() =~= text@.skip(passed + 1));
                passed = passed + 1;
            },
            None => {
                proof {
                    lemma_position(text@, c, passed as int);
                }
                return None;
            },
        }
    }
}

/// The first `c` of a text, where there is one, lies inside it.
pub proof fn lemma_position_bounds(text: Seq<char>, c: char)
    ensures
        position(text, c) <= text.len(),
        forall|i: int| 0 <= i < position(text, c) ==> #[trigger] text[i] != c,
        position(text, c) < text.len() ==> text[position(text, c) as int] == c,
    decreases text.len(),
{
    if text.len() > 0 && text[0] != c {
        let rest = text.drop_first();
        lemma_position_bounds(rest, c);
        assert forall|i: int| 0 <= i < position(text, c) implies #[trigger] text[i] != c by {
            if i > 0 {
                assert(rest[i - 1] == text[i]);
            }
        }
    }
}

/// The pieces of `text` between its separators `c`: one more than there are separators.
pub open spec fn pieces(text: Seq<char>, c: char) -> Seq<Seq<char>>
    decreases text.len(),
{
    let k = position(text, c) as int;
    if k >= text.len() {
        seq![text]
    } else {
        seq![text.take(k)] + pieces(text.skip(k + 1), c)
    }
}

/// Splits `text` at every `c`.
pub fn split(text: &str, c: char) -> (parts: Vec<&str>)
    ensures
        texts(parts@) == pieces(text@, c),
{
    let mut parts: Vec<&str> = Vec::new();
    let mut rest: &str = text;
    loop
        invariant
            texts(parts@) + pieces(rest@, c) =~= pieces(text@, c),
        decreases rest@.len(),
    {
        match find(rest, c) {
            Some(k) => {
                let (head, tail) = split_after(rest, k);
                let (separator, next) = split_after(tail, 1);
                let ghost before = parts@;
                parts.push(head);
                proof {
                    assert(next@ =~= rest@.skip(k + 1));
                    assert(texts(parts@) =~= texts(before).push(head@));
                }
                rest = next;
            },
            None => {
                let ghost before = parts@;
                parts.push(rest);
                assert(texts(parts@) =~= texts(before).push(rest@));
                return parts;
            },
        }
    }
}

/// `line` without the carriage return at its end.
pub open spec fn without_return(line: Seq<char>) -> Seq<char> {
    if line.len() > 0 && line.last() == '\r' {
        line.drop_last()
    } else {
        line
    }
}

/// The lines of `text`. A line ends in a line feed, with or without a carriage return before
/// it; the last line may end with the text instead, and is then kept as it is.
pub open spec fn lines_of(text: Seq<char>) -> Seq<Seq<char>>
    decreases text.len(),
{
    let k = position(text, '\n') as int;
    if text.len() == 0 {
        Seq::empty()
    } else if k >= text.len() {
        seq![text]
    } else {
        seq![without_return(text.take(k))] + lines_of(text.skip(k + 1))
    }
}

/// Removes the carriage return at the end of `line`.
fn strip_return(line: &str) -> (rest: &str)
    ensures
        rest@ == without_return(line@),
{
    let length: usize = line.unicode_len();
    if length == 0 {
        return line;
    }
    let (head, tail) = split_after(line, length - 1);
    assert(tail@[0] == line@.last());
    if tail.get_char(0) == '\r' {
        assert(head@ =~= line@.drop_last());
        head
    } else {
        line
    }
}

/// Splits `text` into its lines.
pub fn lines(text: &str) -> (parts: Vec<&str>)
    ensures
        texts(parts@) == lines_of(text@),
{
    let mut parts: Vec<&str> = Vec::new();
    let mut rest: &str = text;
    loop
        invariant
            texts(parts@) + lines_of(rest@) =~= lines_of(text@),
        decreases rest@.len(),
    {
        proof {
            lemma_byte_len(rest@);
        }
        if rest.as_bytes().len() == 0 {
            return parts;
        }
        match find(rest, '\n') {
            Some(k) => {
                let (head, tail) = split_after(rest, k);
                let (feed, next) = split_after(tail, 1);
                let line = strip_return(head);
                let ghost before = parts@;
                parts.push(line);
                proof {
                    assert(next@ =~= rest@.skip(k + 1));
                    assert(texts(parts@) =~= texts(before).push(line@));
                }
                rest = next;
            },
            None => {
                let ghost before = parts@;
                parts.push(rest);
                assert(texts(parts@) =~= texts(before).push(rest@));
                return parts;
            },
        }
    }
}

// ---------------------------------------------------------------------------
// Laws
// ---------------------------------------------------------------------------

/// Trimming takes away exactly the white space at the ends: a middle that neither starts nor
/// ends with white space is what is left, however long it is and whatever stands around it.
pub proof fn law_trimmed_is_the_middle(before: Seq<char>, middle: Seq<char>, after: Seq<char>)
    requires
        forall|i: int| 0 <= i < before.len() ==> is_white_space(#[trigger] before[i]),
        forall|i: int| 0 <= i < after.len() ==> is_white_space(#[trigger] after[i]),
        middle.len() > 0 ==> !is_white_space(middle[0]) && !is_white_space(middle.last()),
    ensures
        trimmed(before + middle + after) == middle,
{
    let text = before + middle + after;
    let class = white();
    if middle.len() == 0 {
        assert forall|i: int| 0 <= i < text.len() implies class(#[trigger] text[i]) by {
            if i < before.len() {
                assert(text[i] == before[i]);
            } else {
                assert(text[i] == after[i - before.len()]);
            }
        }
        lemma_trimmed_start(text, class, text.len() as int);
        assert(text.skip(text.len() as int) =~= middle);
        lemma_trimmed_end(middle, class, 0);
        assert(middle.take(0) =~= middle);
    } else {
        let k = before.len() as int;
        assert forall|i: int| 0 <= i < k implies class(#[trigger] text[i]) by {
            assert(text[i] == before[i]);
        }
        assert(text[k] == middle[0]);
        lemma_trimmed_start(text, class, k);
        let rest = text.skip(k);
        let m = middle.len() as int;
        assert forall|i: int| m <= i < rest.len() implies class(#[trigger] rest[i]) by {
            assert(rest[i] == after[i - m]);
        }
        assert(rest[m - 1] == middle.last());
        lemma_trimmed_end(rest, class, m);
        assert(rest.take(m) =~= middle);
    }
}

/// Trimming one character away takes exactly that character from the end.
pub proof fn law_trimmed_end_is_the_start(start: Seq<char>, c: char, count: nat)
    requires
        start.len() > 0 ==> start.last() != c,
    ensures
        trimmed_end(start + Seq::new(count, |i: int| c), only(c)) == start,
{
    let tail = Seq::new(count, |i: int| c);
    let text = start + tail;
    assert forall|i: int| start.len() <= i < text.len() implies only(c)(#[trigger] text[i]) by {
        assert(text[i] == tail[i - start.len()]);
    }
    if start.len() > 0 {
        assert(text[start.len() - 1] == start.last());
    }
    lemma_trimmed_end(text, only(c), start.len() as int);
    assert(text.take(start.len() as int) =~= start);
}

/// Trimming one character away at both ends leaves what neither starts nor ends with it.
pub proof fn law_trimmed_both_is_the_middle(c: char, before: nat, middle: Seq<char>, after: nat)
    requires
        middle.len() > 0,
        middle[0] != c,
        middle.last() != c,
    ensures
        trimmed_both(
            Seq::new(before, |i: int| c) + middle + Seq::new(after, |i: int| c),
            only(c),
        ) == middle,
        trimmed_both(middle, only(c)) == middle,
{
    let head = Seq::new(before, |i: int| c);
    let tail = Seq::new(after, |i: int| c);
    let text = head + middle + tail;
    assert forall|i: int| 0 <= i < before implies only(c)(#[trigger] text[i]) by {
        assert(text[i] == head[i]);
    }
    assert(text[before as int] == middle[0]);
    lemma_trimmed_start(text, only(c), before as int);
    assert(text.skip(before as int) =~= middle + tail);
    law_trimmed_end_is_the_start(middle, c, after);
    lemma_trimmed_start(middle, only(c), 0);
    assert(middle.skip(0) =~= middle);
    lemma_trimmed_end(middle, only(c), middle.len() as int);
    assert(middle.take(middle.len() as int) =~= middle);
}

/// A line feed ends a line: what is before it is a line, without the carriage return at its end,
/// and what is after it are the other lines. A text without a line feed is one line.
pub proof fn law_line_feed_ends_a_line(line: Seq<char>, rest: Seq<char>)
    requires
        !line.contains('\n'),
    ensures
        lines_of(line + seq!['\n'] + rest) == seq![
            if line.len() > 0 && line.last() == '\r' {
                line.drop_last()
            } else {
                line
            },
        ] + lines_of(rest),
        line.len() > 0 ==> lines_of(line) == seq![line],
        line.len() == 0 ==> lines_of(line) == Seq::<Seq<char>>::empty(),
{
    let text = line + seq!['\n'] + rest;
    let k = line.len() as int;
    assert forall|i: int| 0 <= i < k implies #[trigger] text[i] != '\n' by {
        assert(line.contains(line[i]));
        assert(text[i] == line[i]);
    }
    lemma_position(text, '\n', k);
    assert(text.take(k) =~= line);
    assert(text.skip(k + 1) =~= rest);
    assert forall|i: int| 0 <= i < k implies #[trigger] line[i] != '\n' by {
        assert(line.contains(line[i]));
    }
    lemma_position(line, '\n', k);
}

/// A separator ends a piece: what is before it is a piece, and what is after it are the others.
/// A text without a separator is one piece.
pub proof fn law_separator_ends_a_piece(piece: Seq<char>, c: char, rest: Seq<char>)
    requires
        !piece.contains(c),
    ensures
        pieces(piece + seq![c] + rest, c) == seq![piece] + pieces(rest, c),
        pieces(piece, c) == seq![piece],
{
    let text = piece + seq![c] + rest;
    let k = piece.len() as int;
    assert forall|i: int| 0 <= i < k implies #[trigger] text[i] != c by {
        assert(piece.contains(piece[i]));
        assert(text[i] == piece[i]);
    }
    lemma_position(text, c, k);
    assert(text.take(k) =~= piece);
    assert(text.skip(k + 1) =~= rest);
    assert forall|i: int| 0 <= i < k implies #[trigger] piece[i] != c by {
        assert(piece.contains(piece[i]));
    }
    lemma_position(piece, c, k);
}

/// Joining puts the separator between neighbours and nowhere else.
pub proof fn law_joining_adds_one_part(parts: Seq<Seq<char>>, part: Seq<char>, separator: Seq<char>)
    ensures
        joined(Seq::empty(), separator) == Seq::<char>::empty(),
        joined(seq![part], separator) == part,
        parts.len() > 0 ==> joined(parts.push(part), separator) == joined(parts, separator)
            + separator + part,
{
    assert(parts.push(part).drop_last() =~= parts);
}

/// A number is written digit by digit, the last one last, and a digit by its own character.
pub proof fn law_decimal_adds_one_digit(n: nat, d: nat)
    requires
        d < 10,
    ensures
        decimal(d) == seq![((48 + d) as u8) as char],
        n > 0 ==> decimal(10 * n + d) == decimal(n).push(((48 + d) as u8) as char),
{
    assert((10 * n + d) / 10 == n && (10 * n + d) % 10 == d) by (nonlinear_arith)
        requires
            d < 10,
    ;
}

/// Cutting after `count` characters keeps the start of a text, and as many characters of it as
/// there are, up to `count`.
pub proof fn law_first_chars_are_the_start(text: Seq<char>, count: nat)
    ensures
        first_chars(text, count).is_prefix_of(text),
        text.len() <= count ==> first_chars(text, count) == text,
        text.len() > count ==> first_chars(text, count).len() == count,
{
}

/// Removing a prefix undoes prepending it, and nothing else has the prefix.
pub proof fn law_prefix_is_removed(prefix: Seq<char>, rest: Seq<char>, text: Seq<char>)
    ensures
        after_prefix(prefix + rest, prefix) == Some(rest),
        after_prefix(text, prefix) matches Some(tail) ==> text == prefix + tail,
{
    assert(prefix.is_prefix_of(prefix + rest));
    assert((prefix + rest).skip(prefix.len() as int) =~= rest);
    if prefix.is_prefix_of(text) {
        assert(text =~= prefix + text.skip(prefix.len() as int));
    }
}

/// Lowering keeps every character but the capital letters of ASCII, which lie 32 below their
/// small letters.
pub proof fn law_lowering_moves_capitals(text: Seq<char>, i: int)
    requires
        0 <= i < text.len(),
    ensures
        lowered(text).len() == text.len(),
        'A' <= text[i] <= 'Z' ==> lowered(text)[i] as u32 == text[i] as u32 + 32,
        !('A' <= text[i] <= 'Z') ==> lowered(text)[i] == text[i],
{
}

} // verus!
