//! The byte-level model of text: how many UTF-8 bytes a sequence of characters
//! takes, which byte offsets fall between characters, and the character index
//! that such an offset stands for.

use vstd::prelude::*;
use vstd::utf8::*;

verus! {

/// Number of bytes in the UTF-8 encoding of `c`.
pub open spec fn char_width(c: char) -> nat {
    let v = c as u32;
    if v <= 0x7F {
        1
    } else if v <= 0x7FF {
        2
    } else if v <= 0xFFFF {
        3
    } else {
        4
    }
}

/// Number of bytes in the UTF-8 encoding of `s`.
pub open spec fn byte_len(s: Seq<char>) -> nat
    decreases s.len(),
{
    if s.len() == 0 {
        0
    } else {
        char_width(s[0]) + byte_len(s.drop_first())
    }
}

/// `pos` is the byte offset of the start of a character of `s`, or of its end.
pub open spec fn is_boundary(s: Seq<char>, pos: int) -> bool {
    exists|k: int| 0 <= k <= s.len() && #[trigger] byte_len(s.take(k)) == pos
}

/// The number of characters that come before byte offset `pos` of `s`.
pub open spec fn char_index(s: Seq<char>, pos: int) -> int {
    choose|k: int| 0 <= k <= s.len() && #[trigger] byte_len(s.take(k)) == pos
}

/// The characters of `s` between byte offsets `start` and `end`.
pub open spec fn byte_range(s: Seq<char>, start: int, end: int) -> Seq<char> {
    s.subrange(char_index(s, start), char_index(s, end))
}

/// `s` with the characters between byte offsets `start` and `end` taken out.
pub open spec fn remove_bytes(s: Seq<char>, start: int, end: int) -> Seq<char> {
    s.take(char_index(s, start)) + s.skip(char_index(s, end))
}

/// `s` with `t` put in at byte offset `pos`.
pub open spec fn insert_at(s: Seq<char>, pos: int, t: Seq<char>) -> Seq<char> {
    s.take(char_index(s, pos)) + t + s.skip(char_index(s, pos))
}

/// Where a cursor at byte offset `cur` ends up when `n` bytes go in at byte
/// offset `pos`: it stays with the text it stood before.
pub open spec fn cursor_after_insert(cur: int, pos: int, n: int) -> int {
    if pos < cur {
        cur + n
    } else {
        cur
    }
}

/// Where a cursor at byte offset `cur` ends up when the bytes `start..end` are
/// taken out: it stays with the text it stood before, or at `start` if that
/// text is gone.
pub open spec fn cursor_after_removal(cur: int, start: int, end: int) -> int {
    if cur <= start {
        cur
    } else if cur >= end {
        cur - (end - start)
    } else {
        start
    }
}

/// Exec counterpart of `char_width`.
pub fn utf8_width(c: char) -> (w: usize)
    ensures
        w == char_width(c),
{
    let v = c as u32;
    if v <= 0x7F {
        1
    } else if v <= 0x7FF {
        2
    } else if v <= 0xFFFF {
        3
    } else {
        4
    }
}

pub proof fn lemma_char_width_pos(c: char)
    ensures
        1 <= char_width(c) <= 4,
{
}

pub proof fn lemma_byte_len_concat(a: Seq<char>, b: Seq<char>)
    ensures
        byte_len(a + b) == byte_len(a) + byte_len(b),
    decreases a.len(),
{
    if a.len() == 0 {
        assert(a + b =~= b);
    } else {
        assert((a + b).drop_first() =~= a.drop_first() + b);
        lemma_byte_len_concat(a.drop_first(), b);
    }
}

pub proof fn lemma_byte_len_single(c: char)
    ensures
        byte_len(seq![c]) == char_width(c),
{
    assert(seq![c].drop_first() =~= Seq::<char>::empty());
    assert(seq![c][0] == c);
    assert(byte_len(Seq::<char>::empty()) == 0);
}

/// Taking one more character adds that character's width.
pub proof fn lemma_byte_len_take_step(s: Seq<char>, k: int)
    requires
        0 <= k < s.len(),
    ensures
        byte_len(s.take(k + 1)) == byte_len(s.take(k)) + char_width(s[k]),
{
    assert(s.take(k + 1) =~= s.take(k) + seq![s[k]]);
    lemma_byte_len_concat(s.take(k), seq![s[k]]);
    lemma_byte_len_single(s[k]);
}

/// Byte offsets of character prefixes grow strictly with the prefix.
pub proof fn lemma_byte_len_take_mono(s: Seq<char>, j: int, k: int)
    requires
        0 <= j <= k <= s.len(),
    ensures
        byte_len(s.take(j)) + (k - j) <= byte_len(s.take(k)),
        byte_len(s.take(k)) <= byte_len(s),
{
    lemma_byte_len_take_grow(s, j, k);
    lemma_byte_len_take_grow(s, k, s.len() as int);
    assert(s.take(s.len() as int) =~= s);
}

proof fn lemma_byte_len_take_grow(s: Seq<char>, j: int, k: int)
    requires
        0 <= j <= k <= s.len(),
    ensures
        byte_len(s.take(j)) + (k - j) <= byte_len(s.take(k)),
    decreases k - j,
{
    if j < k {
        lemma_byte_len_take_grow(s, j, k - 1);
        lemma_byte_len_take_step(s, k - 1);
        lemma_char_width_pos(s[k - 1]);
    }
}

/// At most one character prefix ends at a given byte offset.
pub proof fn lemma_char_index_unique(s: Seq<char>, j: int, k: int)
    requires
        0 <= j <= s.len(),
        0 <= k <= s.len(),
        byte_len(s.take(j)) == byte_len(s.take(k)),
    ensures
        j == k,
{
    if j < k {
        lemma_byte_len_take_mono(s, j, k);
    } else if k < j {
        lemma_byte_len_take_mono(s, k, j);
    }
}

/// The character index of a boundary is the prefix that ends there.
pub proof fn lemma_char_index_of(s: Seq<char>, k: int)
    requires
        0 <= k <= s.len(),
    ensures
        is_boundary(s, byte_len(s.take(k)) as int),
        char_index(s, byte_len(s.take(k)) as int) == k,
{
    let pos = byte_len(s.take(k)) as int;
    assert(is_boundary(s, pos));
    let c = char_index(s, pos);
    lemma_char_index_unique(s, c, k);
}

/// Facts about the character index of any boundary.
pub proof fn lemma_boundary_facts(s: Seq<char>, pos: int)
    requires
        is_boundary(s, pos),
    ensures
        0 <= char_index(s, pos) <= s.len(),
        byte_len(s.take(char_index(s, pos))) == pos,
        0 <= pos <= byte_len(s),
{
    let k = char_index(s, pos);
    lemma_byte_len_take_mono(s, 0, k);
}

/// Replacing characters `a..b` of `s` by `t` keeps the prefixes that end
/// before `a`, and shifts those that end after `b` by the change in length.
pub proof fn lemma_splice_prefix(s: Seq<char>, a: int, b: int, t: Seq<char>, m: int)
    requires
        0 <= a <= b <= s.len(),
        0 <= m <= s.len(),
    ensures
        m <= a ==> (s.take(a) + t + s.skip(b)).take(m) == s.take(m),
        b <= m ==> byte_len((s.take(a) + t + s.skip(b)).take(m - (b - a) + t.len())) + byte_len(
            s.subrange(a, b),
        ) == byte_len(s.take(m)) + byte_len(t),
{
    let n = s.take(a) + t + s.skip(b);
    if m <= a {
        assert(n.take(m) =~= s.take(m));
    }
    if b <= m {
        assert(n.take(m - (b - a) + t.len()) =~= s.take(a) + t + s.subrange(b, m));
        assert(s.take(m) =~= s.take(a) + s.subrange(a, b) + s.subrange(b, m));
        lemma_byte_len_concat(s.take(a), t);
        lemma_byte_len_concat(s.take(a) + t, s.subrange(b, m));
        lemma_byte_len_concat(s.take(a), s.subrange(a, b));
        lemma_byte_len_concat(s.take(a) + s.subrange(a, b), s.subrange(b, m));
    }
}

/// The bytes between two prefixes are the bytes of the characters between them.
pub proof fn lemma_byte_len_subrange(s: Seq<char>, a: int, b: int)
    requires
        0 <= a <= b <= s.len(),
    ensures
        byte_len(s.subrange(a, b)) == byte_len(s.take(b)) - byte_len(s.take(a)),
{
    assert(s.take(b) =~= s.take(a) + s.subrange(a, b));
    lemma_byte_len_concat(s.take(a), s.subrange(a, b));
}

/// Two boundaries are ordered as their character indices are.
pub proof fn lemma_char_index_order(s: Seq<char>, p: int, q: int)
    requires
        is_boundary(s, p),
        is_boundary(s, q),
        p <= q,
    ensures
        char_index(s, p) <= char_index(s, q),
        p < q ==> char_index(s, p) < char_index(s, q),
{
    lemma_boundary_facts(s, p);
    lemma_boundary_facts(s, q);
    if char_index(s, q) <= char_index(s, p) {
        lemma_byte_len_take_mono(s, char_index(s, q), char_index(s, p));
    }
}

/// Text put in at a boundary leaves every boundary of `s` a boundary of the
/// result, once shifted as `cursor_after_insert` says.
pub proof fn lemma_insert_keeps_boundary(s: Seq<char>, pos: int, t: Seq<char>, cur: int)
    requires
        is_boundary(s, pos),
        is_boundary(s, cur),
    ensures
        is_boundary(insert_at(s, pos, t), cursor_after_insert(cur, pos, byte_len(t) as int)),
{
    let k = char_index(s, pos);
    let m = char_index(s, cur);
    let n = insert_at(s, pos, t);
    lemma_boundary_facts(s, pos);
    lemma_boundary_facts(s, cur);
    if pos < cur {
        lemma_char_index_order(s, pos, cur);
        lemma_splice_prefix(s, k, k, t, m);
        assert(s.subrange(k, k) =~= Seq::<char>::empty());
        lemma_char_index_of(n, m + t.len());
    } else {
        lemma_char_index_order(s, cur, pos);
        lemma_splice_prefix(s, k, k, t, m);
        lemma_char_index_of(n, m);
    }
}

/// Taking out the bytes between two boundaries leaves every boundary of `s` a
/// boundary of the result, once moved as `cursor_after_removal` says; the
/// bytes taken out are `end - start`.
pub proof fn lemma_removal_keeps_boundary(s: Seq<char>, start: int, end: int, cur: int)
    requires
        is_boundary(s, start),
        is_boundary(s, end),
        start <= end,
        is_boundary(s, cur),
    ensures
        is_boundary(remove_bytes(s, start, end), cursor_after_removal(cur, start, end)),
        byte_len(byte_range(s, start, end)) == end - start,
{
    let a = char_index(s, start);
    let b = char_index(s, end);
    let m = char_index(s, cur);
    let n = remove_bytes(s, start, end);
    lemma_boundary_facts(s, start);
    lemma_boundary_facts(s, end);
    lemma_boundary_facts(s, cur);
    lemma_char_index_order(s, start, end);
    lemma_byte_len_subrange(s, a, b);
    assert(n =~= s.take(a) + Seq::<char>::empty() + s.skip(b));
    assert(byte_len(Seq::<char>::empty()) == 0);
    if cur <= start {
        lemma_char_index_order(s, cur, start);
        lemma_splice_prefix(s, a, b, Seq::<char>::empty(), m);
        lemma_char_index_of(n, m);
    } else if cur >= end {
        lemma_char_index_order(s, end, cur);
        lemma_splice_prefix(s, a, b, Seq::<char>::empty(), m);
        lemma_char_index_of(n, m - (b - a));
    } else {
        lemma_splice_prefix(s, a, b, Seq::<char>::empty(), a);
        lemma_char_index_of(n, a);
    }
}

/// `byte_len` is the length of vstd's UTF-8 encoding.
pub proof fn lemma_encode_len(s: Seq<char>)
    ensures
        encode_utf8(s).len() == byte_len(s),
    decreases s.len(),
{
    if s.len() > 0 {
        char_is_scalar(s[0]);
        lemma_encode_len(s.drop_first());
    }
}

/// vstd's byte-level character boundaries are the offsets of `is_boundary`.
pub proof fn lemma_char_boundary_iff(s: Seq<char>, pos: int)
    ensures
        is_char_boundary(encode_utf8(s), pos) == is_boundary(s, pos),
    decreases s.len(),
{
    let bytes = encode_utf8(s);
    encode_utf8_valid_utf8(s);
    lemma_encode_len(s);
    assert(s.take(0) =~= Seq::<char>::empty());
    if pos == 0 {
        assert(byte_len(s.take(0)) == 0);
    } else if pos < 0 || bytes.len() < pos {
        if is_boundary(s, pos) {
            lemma_boundary_facts(s, pos);
        }
    } else {
        let rest = s.drop_first();
        let w = char_width(s[0]);
        encode_utf8_first_scalar(s);
        char_is_scalar(s[0]);
        assert(pop_first_scalar(bytes) =~= encode_utf8(rest));
        lemma_char_boundary_iff(rest, pos - w);
        if is_boundary(s, pos) {
            let k = char_index(s, pos);
            lemma_boundary_facts(s, pos);
            assert(k >= 1);
            assert(s.take(k) =~= seq![s[0]] + rest.take(k - 1));
            lemma_byte_len_concat(seq![s[0]], rest.take(k - 1));
            lemma_byte_len_single(s[0]);
            assert(byte_len(rest.take(k - 1)) == pos - w);
            assert(is_boundary(rest, pos - w));
        }
        if is_boundary(rest, pos - w) {
            let j = char_index(rest, pos - w);
            lemma_boundary_facts(rest, pos - w);
            assert(s.take(j + 1) =~= seq![s[0]] + rest.take(j));
            lemma_byte_len_concat(seq![s[0]], rest.take(j));
            lemma_byte_len_single(s[0]);
            assert(byte_len(s.take(j + 1)) == pos);
            assert(is_boundary(s, pos));
        }
    }
}

/// Relies on String::len: the length of `s` in bytes.
#[verifier::external_body]
pub(crate) fn text_len(s: &String) -> (n: usize)
    ensures
        n == byte_len(s@),
{
    s.len()
}

/// Whether byte offset `pos` of `s` falls between two characters (or at an end).
pub fn char_boundary(s: &String, pos: usize) -> (b: bool)
    ensures
        b == is_boundary(s@, pos as int),
{
    proof {
        lemma_char_boundary_iff(s@, pos as int);
    }
    s.as_str().is_char_boundary(pos)
}

/// Relies on String::insert: `c` goes in at byte offset `idx`, which must be a
/// character boundary.
#[verifier::external_body]
pub(crate) fn string_insert(s: &mut String, idx: usize, c: char)
    requires
        is_boundary(old(s)@, idx as int),
    ensures
        final(s)@ == old(s)@.insert(char_index(old(s)@, idx as int), c),
        byte_len(final(s)@) <= usize::MAX,
{
    s.insert(idx, c)
}

/// Relies on String::insert_str: `t` goes in at byte offset `idx`, which must be
/// a character boundary.
#[verifier::external_body]
pub(crate) fn string_insert_str(s: &mut String, idx: usize, t: &str)
    requires
        is_boundary(old(s)@, idx as int),
    ensures
        final(s)@ == old(s)@.take(char_index(old(s)@, idx as int)) + t@ + old(s)@.skip(
            char_index(old(s)@, idx as int),
        ),
        byte_len(final(s)@) <= usize::MAX,
{
    s.insert_str(idx, t)
}

/// Relies on String::remove: removes and returns the character that starts at
/// byte offset `idx`, which must be a character boundary before the end.
#[verifier::external_body]
pub(crate) fn string_remove(s: &mut String, idx: usize) -> (c: char)
    requires
        is_boundary(old(s)@, idx as int),
        idx < byte_len(old(s)@),
    ensures
        c == old(s)@[char_index(old(s)@, idx as int)],
        final(s)@ == old(s)@.remove(char_index(old(s)@, idx as int)),
{
    s.remove(idx)
}

/// Relies on String::pop: removes and returns the last character, if any.
#[verifier::external_body]
pub(crate) fn string_pop(s: &mut String) -> (c: Option<char>)
    ensures
        old(s)@.len() == 0 ==> c is None && final(s)@ == old(s)@,
        old(s)@.len() > 0 ==> c == Some(old(s)@.last()) && final(s)@ == old(s)@.drop_last(),
{
    s.pop()
}

/// Relies on String::truncate: keeps the text before byte offset `n`, which must
/// be a character boundary.
#[verifier::external_body]
pub(crate) fn string_truncate(s: &mut String, n: usize)
    requires
        is_boundary(old(s)@, n as int),
    ensures
        final(s)@ == old(s)@.take(char_index(old(s)@, n as int)),
{
    s.truncate(n)
}

/// Relies on String::drain: removes the text between byte offsets `start` and
/// `end`, both character boundaries, and hands it back.
#[verifier::external_body]
pub(crate) fn string_drain(s: &mut String, start: usize, end: usize) -> (t: String)
    requires
        start <= end,
        is_boundary(old(s)@, start as int),
        is_boundary(old(s)@, end as int),
    ensures
        t@ == old(s)@.subrange(char_index(old(s)@, start as int), char_index(old(s)@, end as int)),
        final(s)@ == old(s)@.take(char_index(old(s)@, start as int)) + old(s)@.skip(
            char_index(old(s)@, end as int),
        ),
{
    s.drain(start..end).collect()
}

} // verus!
