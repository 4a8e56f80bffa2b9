//! Package sources: the text that names a registry or a git repository, with the revision that
//! may follow it after a `#`.

use vstd::prelude::*;
use vstd::string::StringSliceAdditionalSpecFns;
use vstd::utf8::*;

use crate::text::{begins_with, chars_of, opt_view};

verus! {

/// How many characters stand before the first `#`; all of them where there is none.
pub open spec fn hash_at(source: Seq<char>) -> int
    decreases source.len(),
{
    if source.len() == 0 || source[0] == '#' {
        0
    } else {
        1 + hash_at(source.skip(1))
    }
}

/// The source without the revision: everything before the first `#`.
pub open spec fn base_of(source: Seq<char>) -> Seq<char> {
    source.take(hash_at(source))
}

/// The revision: everything after the first `#`.
pub open spec fn precise_of(source: Seq<char>) -> Option<Seq<char>> {
    if hash_at(source) < source.len() {
        Some(source.skip(hash_at(source) + 1))
    } else {
        None
    }
}

pub open spec fn is_git(source: Seq<char>) -> bool {
    "git+"@.is_prefix_of(source)
}

pub open spec fn is_registry(source: Seq<char>) -> bool {
    "registry+"@.is_prefix_of(source)
}

/// The form in which sources are compared: without the revision, and for git sources with the
/// percent escapes resolved.
pub open spec fn normalized(source: Seq<char>) -> Seq<char> {
    if is_git(base_of(source)) {
        decoded(encode_utf8(base_of(source)))
    } else {
        base_of(source)
    }
}

/// The number that a hexadecimal digit stands for.
pub open spec fn hex_digit(byte: u8) -> Option<u8> {
    if 0x30 <= byte <= 0x39 {
        Some((byte - 0x30) as u8)
    } else if 0x61 <= byte <= 0x66 {
        Some((byte - 0x61 + 10) as u8)
    } else if 0x41 <= byte <= 0x46 {
        Some((byte - 0x41 + 10) as u8)
    } else {
        None
    }
}

/// The bytes begin with a `%` and two hexadecimal digits.
pub open spec fn starts_escape(bytes: Seq<u8>) -> bool {
    bytes.len() > 2 && bytes[0] == 0x25 && hex_digit(bytes[1]) is Some && hex_digit(bytes[2]) is Some
}

/// The character that the escape at the start of the bytes stands for.
pub open spec fn escaped_char(bytes: Seq<u8>) -> char {
    (hex_digit(bytes[1])->0 * 16 + hex_digit(bytes[2])->0) as char
}

/// The bytes read from the left, each escape as the character it stands for and each other byte
/// as the character with its number.
pub open spec fn decoded(bytes: Seq<u8>) -> Seq<char>
    decreases bytes.len(),
{
    if bytes.len() == 0 {
        Seq::empty()
    } else if starts_escape(bytes) {
        seq![escaped_char(bytes)] + decoded(bytes.skip(3))
    } else {
        seq![bytes[0] as char] + decoded(bytes.skip(1))
    }
}

/// The first `#` stands at `i` exactly when none stands before `i`, and one at `i` unless the
/// text ends there.
proof fn lemma_hash_at(source: Seq<char>, i: int)
    requires
        0 <= i <= source.len(),
        forall|j: int| 0 <= j < i ==> source[j] != '#',
        i < source.len() ==> source[i] == '#',
    ensures
        hash_at(source) == i,
    decreases source.len(),
{
    if i > 0 {
        assert forall|j: int| 0 <= j < i - 1 implies source.skip(1)[j] != '#' by {
            assert(source[j + 1] != '#');
        }
        lemma_hash_at(source.skip(1), i - 1);
    }
}

/// The place of the first `#`, or the length where there is none.
fn find_hash(chars: &Vec<char>) -> (r: usize)
    ensures
        r == hash_at(chars@),
        r <= chars@.len(),
{
    let mut i: usize = 0;
    while i < chars.len()
        invariant
            i <= chars@.len(),
            forall|j: int| 0 <= j < i ==> chars@[j] != '#',
        decreases chars@.len() - i,
    {
        if chars[i] == '#' {
            proof {
                lemma_hash_at(chars@, i as int);
            }
            return i;
        }
        i = i + 1;
    }
    proof {
        lemma_hash_at(chars@, i as int);
    }
    i
}

/// The form in which sources are compared.
pub fn normalize_source_for_key(source: &str) -> (r: String)
    ensures
        r@ == normalized(source@),
{
    let chars = chars_of(source);
    let end = find_hash(&chars);
    let base = source.substring_char(0, end);
    assert(base@ == base_of(source@));
    if begins_with(base, "git+") {
        percent_decode(base)
    } else {
        base.to_owned()
    }
}

/// The revision of a source, where it has one.
pub fn source_precise(source: &str) -> (r: Option<String>)
    ensures
        opt_view(r) == precise_of(source@),
{
    let chars = chars_of(source);
    let end = find_hash(&chars);
    if end < chars.len() {
        let precise = source.substring_char(end + 1, chars.len());
        assert(precise@ == source@.skip(end + 1));
        Some(precise.to_owned())
    } else {
        None
    }
}

/// Resolves the percent escapes of a text.
pub fn percent_decode(value: &str) -> (r: String)
    ensures
        r@ == decoded(encode_utf8(value@)),
{
    let mut text = String::new();
    let bytes = value.as_bytes();
    let mut index: usize = 0;
    assert(bytes@.skip(0) == bytes@);
    while index < bytes.len()
        invariant
            index <= bytes@.len(),
            text@ + decoded(bytes@.skip(index as int)) == decoded(bytes@),
        decreases bytes@.len() - index,
    {
        let ghost rest = bytes@.skip(index as int);
        if bytes[index] == 0x25 && bytes.len() - index > 2 {
            if let (Some(high), Some(low)) = (hex_value(bytes[index + 1]), hex_value(bytes[index + 2])) {
                let ghost before = text@;
                text.push((high * 16 + low) as char);
                proof {
                    assert(starts_escape(rest));
                    assert(rest.skip(3) == bytes@.skip(index + 3));
                    assert(before.push(escaped_char(rest)) + decoded(rest.skip(3)) == before + (
                    seq![escaped_char(rest)] + decoded(rest.skip(3))));
                }
                index = index + 3;
                continue ;
            }
        }
        let ghost before = text@;
        text.push(bytes[index] as char);
        proof {
            assert(!starts_escape(rest));
            assert(rest.skip(1) == bytes@.skip(index + 1));
            assert(before.push(rest[0] as char) + decoded(rest.skip(1)) == before + (
            seq![rest[0] as char] + decoded(rest.skip(1))));
        }
        index = index + 1;
    }
    assert(text@ + decoded(bytes@.skip(index as int)) == text@);
    text
}

/// The number that a hexadecimal digit stands for.
pub fn hex_value(byte: u8) -> (r: Option<u8>)
    ensures
        r == hex_digit(byte),
        r matches Some(v) ==> v < 16,
{
    match byte {
        0x30..=0x39 => Some(byte - 0x30),
        0x61..=0x66 => Some(byte - 0x61 + 10),
        0x41..=0x46 => Some(byte - 0x41 + 10),
        _ => None,
    }
}

/// Whether a source is a registry.
pub fn is_registry_source(source: &str) -> (r: bool)
    ensures
        r == is_registry(source@),
{
    begins_with(source, "registry+")
}

/// The first eight bytes of a revision, or all of it where it is shorter or where a character
/// spans the eighth byte.
pub open spec fn shortened(precise: Seq<char>) -> Seq<char> {
    let bytes = encode_utf8(precise);
    if is_char_boundary(bytes, 8) {
        decode_utf8(bytes.take(8))
    } else {
        precise
    }
}

/// The short form of a revision.
pub fn short_precise(precise: &str) -> (r: &str)
    ensures
        r@ == shortened(precise@),
{
    if precise.is_char_boundary(8) {
        let (head, _) = precise.split_at(8);
        proof {
            broadcast use {encode_utf8_decode_utf8, encode_utf8_valid_utf8};

            assert(decode_utf8(encode_utf8(head@)) == head@);
            assert(head.spec_bytes() == precise.spec_bytes().take(8));
        }
        head
    } else {
        precise
    }
}

/// Splitting at a character that occurs nowhere before it.
proof fn lemma_hash_between(base: Seq<char>, precise: Seq<char>)
    requires
        !base.contains('#'),
    ensures
        hash_at(base) == base.len(),
        hash_at(base + seq!['#'] + precise) == base.len(),
        base_of(base) == base,
        base_of(base + seq!['#'] + precise) == base,
        precise_of(base) is None,
        precise_of(base + seq!['#'] + precise) == Some(precise),
{
    let whole = base + seq!['#'] + precise;
    lemma_hash_at(base, base.len() as int);
    assert forall|j: int| 0 <= j < base.len() implies whole[j] != '#' by {
        assert(whole[j] == base[j]);
    }
    lemma_hash_at(whole, base.len() as int);
    assert(base.take(base.len() as int) == base);
    assert(whole.take(base.len() as int) == base);
    assert(whole.skip(base.len() as int + 1) == precise);
}

/// The revision plays no part in comparing sources, and is kept apart whole.
pub proof fn law_revision_ignored_in_key(base: Seq<char>, precise: Seq<char>)
    requires
        !base.contains('#'),
    ensures
        normalized(base + seq!['#'] + precise) == normalized(base),
        precise_of(base + seq!['#'] + precise) == Some(precise),
        precise_of(base) is None,
{
    lemma_hash_between(base, precise);
}

/// A source is its part before the first `#`, and after it the revision where there is one.
pub proof fn law_source_splits(source: Seq<char>)
    ensures
        source == match precise_of(source) {
            Some(precise) => base_of(source) + seq!['#'] + precise,
            None => base_of(source),
        },
        !base_of(source).contains('#'),
{
    lemma_hash_at_place(source);
    if precise_of(source) is Some {
        assert(source == base_of(source) + seq!['#'] + source.skip(hash_at(source) + 1));
    }
}

proof fn lemma_hash_at_place(source: Seq<char>)
    ensures
        0 <= hash_at(source) <= source.len(),
        forall|j: int| 0 <= j < hash_at(source) ==> source[j] != '#',
        hash_at(source) < source.len() ==> source[hash_at(source)] == '#',
    decreases source.len(),
{
    if source.len() > 0 && source[0] != '#' {
        let rest = source.skip(1);
        lemma_hash_at_place(rest);
        assert forall|j: int| 0 <= j < hash_at(source) implies source[j] != '#' by {
            if j > 0 {
                assert(rest[j - 1] == source[j]);
            }
        }
    }
}

/// An escape stands for its character wherever it occurs: what surrounds it is resolved on its
/// own.
pub proof fn law_escape_resolved(before: Seq<u8>, escape: Seq<u8>, after: Seq<u8>)
    requires
        escape.len() == 3,
        starts_escape(escape),
    ensures
        decoded(before + escape + after) == decoded(before) + seq![escaped_char(escape)] + decoded(after),
    decreases before.len(),
{
    let whole = before + escape + after;
    if before.len() == 0 {
        assert(whole.skip(3) == after);
        assert(starts_escape(whole));
        assert(decoded(whole) == seq![escaped_char(whole)] + decoded(after));
        assert(decoded(before) + seq![escaped_char(escape)] + decoded(after) == seq![
            escaped_char(whole),
        ] + decoded(after));
    } else if starts_escape(before) {
        law_escape_resolved(before.skip(3), escape, after);
        assert(whole.skip(3) == before.skip(3) + escape + after);
        assert(starts_escape(whole));
        assert(decoded(whole) == decoded(before) + seq![escaped_char(escape)] + decoded(after));
    } else {
        law_escape_resolved(before.skip(1), escape, after);
        assert(whole.skip(1) == before.skip(1) + escape + after);
        assert(!starts_escape(whole)) by {
            if starts_escape(whole) {
                assert(whole[1] == if before.len() > 1 { before[1] } else { escape[0] });
                assert(before.len() >= 2 ==> whole[2] == if before.len() > 2 {
                    before[2]
                } else {
                    escape[0]
                });
            }
        }
        assert(decoded(whole) == decoded(before) + seq![escaped_char(escape)] + decoded(after));
    }
}

/// A hexadecimal digit between these bytes would be taken into an escape that begins in front of
/// it.
pub open spec fn completes_escape(before: Seq<u8>, after: Seq<u8>) -> bool {
    ||| before.len() >= 2 && before[before.len() - 2] == 0x25 && hex_digit(before.last()) is Some
    ||| before.len() >= 1 && before.last() == 0x25 && after.len() >= 1 && hex_digit(after[0]) is Some
}

/// A byte other than `%` stands for itself wherever it occurs, unless it is a hexadecimal digit
/// that is taken into an escape.
pub proof fn law_plain_byte_kept(before: Seq<u8>, byte: u8, after: Seq<u8>)
    requires
        byte != 0x25,
        hex_digit(byte) is Some ==> !completes_escape(before, after),
    ensures
        decoded(before + seq![byte] + after) == decoded(before) + seq![byte as char] + decoded(after),
    decreases before.len(),
{
    let whole = before + seq![byte] + after;
    if before.len() == 0 {
        assert(whole.skip(1) == after);
        assert(whole[0] == byte);
        assert(decoded(whole) == seq![byte as char] + decoded(after));
        assert(decoded(before) + seq![byte as char] + decoded(after) == seq![byte as char] + decoded(
            after,
        ));
    } else if starts_escape(before) {
        law_plain_byte_kept(before.skip(3), byte, after);
        assert(whole.skip(3) == before.skip(3) + seq![byte] + after);
        assert(starts_escape(whole));
        assert(decoded(whole) == decoded(before) + seq![byte as char] + decoded(after));
    } else {
        law_plain_byte_kept(before.skip(1), byte, after);
        assert(whole.skip(1) == before.skip(1) + seq![byte] + after);
        assert(!starts_escape(whole)) by {
            if starts_escape(whole) {
                assert(whole[1] == if before.len() > 1 { before[1] } else { byte });
                assert(whole[2] == if before.len() > 2 {
                    before[2]
                } else if before.len() == 2 {
                    byte
                } else {
                    after[0]
                });
            }
        }
        assert(decoded(whole) == decoded(before) + seq![byte as char] + decoded(after));
    }
}

proof fn lemma_encode_concat(a: Seq<char>, b: Seq<char>)
    ensures
        encode_utf8(a + b) == encode_utf8(a) + encode_utf8(b),
    decreases a.len(),
{
    if a.len() == 0 {
        assert(a + b == b);
        assert(encode_utf8(a) + encode_utf8(b) == encode_utf8(b));
    } else {
        lemma_encode_concat(a.drop_first(), b);
        assert((a + b).drop_first() == a.drop_first() + b);
        assert(encode_utf8(a + b) == encode_utf8(a) + encode_utf8(b));
    }
}

/// The first bytes are escapes, one for each of the other bytes, in their order.
pub open spec fn spells_out(escapes: Seq<u8>, bytes: Seq<u8>) -> bool {
    &&& escapes.len() == 3 * bytes.len()
    &&& forall|k: int| 0 <= k < bytes.len() ==> #[trigger] spells_out_at(escapes, bytes, k)
}

/// The escape at place `k` stands for the byte at place `k`.
pub open spec fn spells_out_at(escapes: Seq<u8>, bytes: Seq<u8>, k: int) -> bool {
    let escape = escapes.subrange(3 * k, 3 * k + 3);
    starts_escape(escape) && escaped_char(escape) == bytes[k] as char
}

/// The characters with the numbers of these bytes.
spec fn byte_chars(bytes: Seq<u8>) -> Seq<char> {
    bytes.map_values(|byte: u8| byte as char)
}

/// Escapes one after the other stand for their characters wherever they occur.
proof fn lemma_escapes_resolved(
    before: Seq<u8>,
    escapes: Seq<u8>,
    bytes: Seq<u8>,
    after: Seq<u8>,
)
    requires
        bytes.len() > 0,
        spells_out(escapes, bytes),
    ensures
        decoded(before + escapes + after) == decoded(before) + byte_chars(bytes) + decoded(after),
    decreases bytes.len(),
{
    let n = bytes.len() - 1;
    let front = escapes.take(3 * n);
    let last = escapes.subrange(3 * n, 3 * n + 3);
    assert(spells_out_at(escapes, bytes, n));
    assert(escapes == front + last);
    assert(before + escapes + after == (before + front) + last + after);
    law_escape_resolved(before + front, last, after);
    if n == 0 {
        assert(before + front == before);
    } else {
        let rest = bytes.drop_last();
        assert forall|k: int| 0 <= k < rest.len() implies #[trigger] spells_out_at(
            front,
            rest,
            k,
        ) by {
            assert(spells_out_at(escapes, bytes, k));
            assert(front.subrange(3 * k, 3 * k + 3) == escapes.subrange(3 * k, 3 * k + 3));
        }
        lemma_escapes_resolved(before, front, rest, Seq::empty());
        assert(before + front + Seq::<u8>::empty() == before + front);
        assert(byte_chars(bytes) == byte_chars(rest).push(bytes[n] as char));
    }
    assert(decoded(before + escapes + after) == decoded(before) + byte_chars(bytes) + decoded(
        after,
    ));
}

/// Bytes beyond ASCII stand for themselves wherever they occur.
proof fn lemma_high_bytes_kept(before: Seq<u8>, bytes: Seq<u8>, after: Seq<u8>)
    requires
        bytes.len() > 0,
        forall|k: int| 0 <= k < bytes.len() ==> #[trigger] bytes[k] >= 0x80,
    ensures
        decoded(before + bytes + after) == decoded(before) + byte_chars(bytes) + decoded(after),
    decreases bytes.len(),
{
    let n = bytes.len() - 1;
    let front = bytes.drop_last();
    assert(bytes == front + seq![bytes[n]]);
    assert(before + bytes + after == (before + front) + seq![bytes[n]] + after);
    law_plain_byte_kept(before + front, bytes[n], after);
    if n == 0 {
        assert(before + front == before);
    } else {
        lemma_high_bytes_kept(before, front, Seq::empty());
        assert(before + front + Seq::<u8>::empty() == before + front);
        assert(byte_chars(bytes) == byte_chars(front).push(bytes[n] as char));
    }
    assert(decoded(before + bytes + after) == decoded(before) + byte_chars(bytes) + decoded(after));
}

/// A character is one byte where it is ASCII, and else consists of bytes beyond ASCII.
proof fn lemma_bytes_of_char(c: char)
    ensures
        encode_utf8(seq![c]).len() > 0,
        c <= '\u{7f}' ==> encode_utf8(seq![c]) == seq![c as u8],
        c > '\u{7f}' ==> forall|k: int|
            0 <= k < encode_utf8(seq![c]).len() ==> #[trigger] encode_utf8(seq![c])[k] >= 0x80,
{
    let one = seq![c];
    let v = c as u32;
    assert(encode_utf8(one.drop_first()) == Seq::<u8>::empty());
    assert(encode_utf8(one) == encode_scalar(v));
    if c <= '\u{7f}' {
        is_ascii_chars_encode_utf8(one);
        assert(one[0] as u8 == encode_utf8(one)[0]);
    } else {
        assert(leading_byte_width_2(v) >= 0x80 && leading_byte_width_3(v) >= 0x80
            && leading_byte_width_4(v) >= 0x80 && last_continuation_byte(v) >= 0x80
            && second_last_continuation_byte(v) >= 0x80 && third_last_continuation_byte(v) >= 0x80)
            by (bit_vector);
    }
}

/// Two git sources that differ only in writing a character as the escapes of its bytes name the
/// same source, whatever their revisions: a slash and `%2F`, for one. The character is any but `%`
/// and `#`, and no hexadecimal digit that would be taken into another escape.
pub proof fn law_escaped_char_matches(
    before: Seq<char>,
    c: char,
    escapes: Seq<char>,
    after: Seq<char>,
    precise: Seq<char>,
    other_precise: Seq<char>,
)
    requires
        is_git(before),
        !before.contains('#'),
        !after.contains('#'),
        c != '%',
        c != '#',
        is_ascii_chars(escapes),
        spells_out(encode_utf8(escapes), encode_utf8(seq![c])),
        hex_digit(encode_utf8(seq![c])[0]) is Some ==> !completes_escape(
            encode_utf8(before),
            encode_utf8(after),
        ),
    ensures
        normalized(before + escapes + after) == normalized(before + seq![c] + after),
        normalized(before + escapes + after + seq!['#'] + precise) == normalized(
            before + seq![c] + after + seq!['#'] + other_precise,
        ),
{
    reveal_strlit("git+");
    let plain = seq![c];
    let bytes = encode_utf8(plain);
    let written = encode_utf8(escapes);
    let left = before + escapes + after;
    let right = before + plain + after;
    is_ascii_chars_encode_utf8(escapes);
    lemma_bytes_of_char(c);
    assert(!left.contains('#')) by {
        assert forall|i: int| 0 <= i < left.len() implies left[i] != '#' by {
            if i < before.len() {
                assert(left[i] == before[i]);
            } else if i < before.len() + escapes.len() {
                let j = i - before.len();
                let k = j / 3;
                let escape = written.subrange(3 * k, 3 * k + 3);
                assert(0 <= k < bytes.len());
                assert(spells_out_at(written, bytes, k));
                assert(escape[j - 3 * k] == written[j]);
                assert(left[i] == escapes[j]);
                assert(escapes[j] as u8 == written[j]);
                assert('#' as u8 == 0x23);
            } else {
                assert(left[i] == after[i - before.len() - escapes.len()]);
            }
        }
    }
    assert(!right.contains('#')) by {
        assert forall|i: int| 0 <= i < right.len() implies right[i] != '#' by {
            if i < before.len() {
                assert(right[i] == before[i]);
            } else if i >= before.len() + 1 {
                assert(right[i] == after[i - before.len() - 1]);
            }
        }
    }
    lemma_hash_between(left, precise);
    lemma_hash_between(right, other_precise);
    assert(left.take(4) == before.take(4));
    assert(right.take(4) == before.take(4));
    assert(is_git(left) && is_git(right));
    lemma_encode_concat(before + escapes, after);
    lemma_encode_concat(before, escapes);
    lemma_encode_concat(before + plain, after);
    lemma_encode_concat(before, plain);
    lemma_escapes_resolved(encode_utf8(before), written, bytes, encode_utf8(after));
    if c <= '\u{7f}' {
        law_plain_byte_kept(encode_utf8(before), c as u8, encode_utf8(after));
        assert(byte_chars(bytes) == seq![c as u8 as char]);
    } else {
        lemma_high_bytes_kept(encode_utf8(before), bytes, encode_utf8(after));
    }
}

/// The short form of an ASCII revision is its first eight characters, or all of it where it is
/// shorter.
pub proof fn law_short_ascii_precise(precise: Seq<char>)
    requires
        is_ascii_chars(precise),
    ensures
        shortened(precise) == if precise.len() <= 8 {
            precise
        } else {
            precise.take(8)
        },
{
    broadcast use {encode_utf8_valid_utf8, encode_utf8_decode_utf8};

    let bytes = encode_utf8(precise);
    is_ascii_chars_encode_utf8(precise);
    if precise.len() >= 8 {
        let head = precise.take(8);
        assert(is_ascii_chars(head)) by {
            assert forall|i: int| 0 <= i < head.len() implies '\0' <= #[trigger] head[i]
                <= '\u{7f}' by {
                assert(precise[i] == head[i]);
            }
        }
        is_ascii_chars_encode_utf8(head);
        assert(bytes.take(8) == encode_utf8(head)) by {
            assert forall|i: int| 0 <= i < 8 implies bytes[i] == encode_utf8(head)[i] by {
                assert(precise[i] as u8 == bytes[i]);
                assert(head[i] as u8 == encode_utf8(head)[i]);
            }
        }
        if precise.len() > 8 {
            assert(precise[8] as u8 == bytes[8]);
            let c = precise[8];
            assert(c <= '\u{7f}');
            is_char_boundary_iff_not_is_continuation_byte(bytes, 8);
        } else {
            is_char_boundary_start_end_of_seq(bytes);
            assert(head == precise);
        }
    }
}

/// A git source is one that begins with `git+`, and a registry one that begins with `registry+`.
pub proof fn law_source_kinds(source: Seq<char>)
    ensures
        is_git(source) <==> source.len() >= 4 && source.take(4) == seq!['g', 'i', 't', '+'],
        is_registry(source) <==> source.len() >= 9 && source.take(9) == seq![
            'r',
            'e',
            'g',
            'i',
            's',
            't',
            'r',
            'y',
            '+',
        ],
{
    reveal_strlit("git+");
    reveal_strlit("registry+");
    assert("git+"@ == seq!['g', 'i', 't', '+']);
    assert("registry+"@ == seq!['r', 'e', 'g', 'i', 's', 't', 'r', 'y', '+']);
}

/// A source that is not git is compared as it is, but for its revision.
pub proof fn law_other_sources_compared_as_they_are(base: Seq<char>, precise: Seq<char>)
    requires
        !base.contains('#'),
        !is_git(base),
    ensures
        normalized(base) == base,
        normalized(base + seq!['#'] + precise) == base,
{
    lemma_hash_between(base, precise);
}

/// A git source without escapes, all in ASCII, is compared as it is, but for its revision.
pub proof fn law_plain_git_source_compared_as_it_is(base: Seq<char>, precise: Seq<char>)
    requires
        !base.contains('#'),
        !base.contains('%'),
        is_ascii_chars(base),
    ensures
        normalized(base) == base,
        normalized(base + seq!['#'] + precise) == base,
{
    lemma_hash_between(base, precise);
    let bytes = encode_utf8(base);
    is_ascii_chars_encode_utf8(base);
    assert forall|i: int| 0 <= i < bytes.len() implies #[trigger] bytes[i] != 0x25 by {
        assert(base[i] as u8 == bytes[i]);
        assert('%' as u8 == 0x25);
    }
    law_text_without_escapes_kept(bytes);
    assert(byte_chars(bytes) == base) by {
        assert forall|i: int| 0 <= i < bytes.len() implies byte_chars(bytes)[i] == base[i] by {
            assert(base[i] as u8 == bytes[i]);
        }
    }
}

/// Bytes without any `%` stand for themselves.
pub proof fn law_text_without_escapes_kept(bytes: Seq<u8>)
    requires
        forall|i: int| 0 <= i < bytes.len() ==> #[trigger] bytes[i] != 0x25,
    ensures
        decoded(bytes) == bytes.map_values(|byte: u8| byte as char),
    decreases bytes.len(),
{
    if bytes.len() > 0 {
        assert(bytes[0] != 0x25);
        assert forall|i: int| 0 <= i < bytes.skip(1).len() implies #[trigger] bytes.skip(1)[i]
            != 0x25 by {
            assert(bytes[i + 1] != 0x25);
        }
        law_text_without_escapes_kept(bytes.skip(1));
    }
    assert(decoded(bytes) =~= bytes.map_values(|byte: u8| byte as char));
}

/// A `%` that is not followed by two hexadecimal digits stands for itself wherever it occurs.
pub proof fn law_lone_percent_kept(before: Seq<u8>, after: Seq<u8>)
    requires
        after.len() < 2 || hex_digit(after[0]) is None || hex_digit(after[1]) is None,
    ensures
        decoded(before + seq![0x25u8] + after) == decoded(before) + seq!['%'] + decoded(after),
    decreases before.len(),
{
    let whole = before + seq![0x25u8] + after;
    assert(0x25u8 as char == '%');
    if before.len() == 0 {
        assert(whole.skip(1) == after);
        assert(whole[0] == 0x25);
        assert(after.len() >= 1 ==> whole[1] == after[0]);
        assert(after.len() >= 2 ==> whole[2] == after[1]);
        assert(!starts_escape(whole));
        assert(decoded(whole) == seq!['%'] + decoded(after));
        assert(decoded(before) + seq!['%'] + decoded(after) == seq!['%'] + decoded(after));
    } else if starts_escape(before) {
        law_lone_percent_kept(before.skip(3), after);
        assert(whole.skip(3) == before.skip(3) + seq![0x25u8] + after);
        assert(starts_escape(whole));
        assert(decoded(whole) == decoded(before) + seq!['%'] + decoded(after));
    } else {
        law_lone_percent_kept(before.skip(1), after);
        assert(whole.skip(1) == before.skip(1) + seq![0x25u8] + after);
        assert(!starts_escape(whole)) by {
            if starts_escape(whole) {
                assert(whole[1] == if before.len() > 1 { before[1] } else { 0x25u8 });
                assert(before.len() >= 2 ==> whole[2] == if before.len() > 2 {
                    before[2]
                } else {
                    0x25u8
                });
            }
        }
        assert(decoded(whole) == decoded(before) + seq!['%'] + decoded(after));
    }
}

/// The hexadecimal digits are those of `0123456789abcdef`, or of the same in capitals, and each
/// stands for its place among them.
pub proof fn law_hexadecimal_digits(byte: u8)
    ensures
        forall|v: u8|
            v < 16 ==> (#[trigger] hex_digit_is(byte, v) <==> "0123456789abcdef"@[v as int]
                == byte as char || "0123456789ABCDEF"@[v as int] == byte as char),
        hex_digit(byte) matches Some(v) ==> v < 16,
{
    reveal_strlit("0123456789abcdef");
    reveal_strlit("0123456789ABCDEF");
}

/// The byte is the hexadecimal digit for this number.
pub open spec fn hex_digit_is(byte: u8, v: u8) -> bool {
    hex_digit(byte) == Some(v)
}

/// An escape stands for the character with the number that its two digits make.
pub proof fn law_escape_value(high: u8, low: u8)
    requires
        hex_digit(high) is Some,
        hex_digit(low) is Some,
    ensures
        starts_escape(seq![0x25u8, high, low]),
        escaped_char(seq![0x25u8, high, low]) as int == 16 * hex_digit(high)->0 + hex_digit(low)->0,
{
}

/// The short form of a revision is the part of it that has eight bytes, where its bytes part
/// there between two characters, and else all of it.
pub proof fn law_short_precise_has_eight_bytes(precise: Seq<char>, head: Seq<char>, tail: Seq<char>)
    requires
        precise == head + tail,
        encode_utf8(head).len() == 8,
    ensures
        shortened(precise) == head,
{
    broadcast use {encode_utf8_valid_utf8, encode_utf8_decode_utf8};

    lemma_encode_concat(head, tail);
    let bytes = encode_utf8(precise);
    assert(bytes.take(8) == encode_utf8(head));
    assert(bytes.skip(8) == encode_utf8(tail));
    if tail.len() == 0 {
        assert(bytes.len() == 8);
        is_char_boundary_start_end_of_seq(bytes);
    } else {
        encode_utf8_first_scalar(tail);
        assert(bytes[8] == encode_utf8(tail)[0]);
        is_char_boundary_iff_is_leading_byte(bytes, 8);
    }
}

/// The short form of a revision is all of it, or the part at its front that has eight bytes.
pub proof fn law_short_precise_is_the_front(precise: Seq<char>)
    ensures
        shortened(precise) == precise || {
            &&& encode_utf8(shortened(precise)).len() == 8
            &&& shortened(precise).len() <= precise.len()
            &&& precise.take(shortened(precise).len() as int) == shortened(precise)
        },
{
    broadcast use {encode_utf8_valid_utf8, encode_utf8_decode_utf8};

    let bytes = encode_utf8(precise);
    if is_char_boundary(bytes, 8) {
        valid_utf8_split(bytes, 8);
        decode_utf8_split(bytes, 8);
        decode_utf8_encode_utf8(bytes.take(8));
        let head = decode_utf8(bytes.take(8));
        let tail = decode_utf8(bytes.skip(8));
        assert(precise == head + tail);
        assert(precise.take(head.len() as int) == head);
    }
}

} // verus!
