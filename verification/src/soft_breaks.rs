//! Quoted-printable soft line breaks (`=\r\n`): their removal from a body,
//! with a map from each kept byte back to its position in the input.
use vstd::prelude::*;
use vstd::utf8::*;

verus! {

/// A soft line break (`eq`, `cr`, `lf`) starts at position `i` of `s`.
pub open spec fn break_at<T>(s: Seq<T>, i: int, eq: T, cr: T, lf: T) -> bool {
    &&& 0 <= i
    &&& i + 3 <= s.len()
    &&& s[i] == eq
    &&& s[i + 1] == cr
    &&& s[i + 2] == lf
}

/// The items of `s[i..]` left after a left-to-right scan that drops every
/// soft line break it meets and keeps every other item.
pub open spec fn strip_from<T>(s: Seq<T>, i: int, eq: T, cr: T, lf: T) -> Seq<T>
    decreases s.len() - i,
{
    if i >= s.len() {
        seq![]
    } else if break_at(s, i, eq, cr, lf) {
        strip_from(s, i + 3, eq, cr, lf)
    } else {
        seq![s[i]] + strip_from(s, i + 1, eq, cr, lf)
    }
}

/// The positions in `s` of the items that `strip_from(s, i, ..)` keeps, in order.
pub open spec fn kept_from<T>(s: Seq<T>, i: int, eq: T, cr: T, lf: T) -> Seq<int>
    decreases s.len() - i,
{
    if i >= s.len() {
        seq![]
    } else if break_at(s, i, eq, cr, lf) {
        kept_from(s, i + 3, eq, cr, lf)
    } else {
        seq![i] + kept_from(s, i + 1, eq, cr, lf)
    }
}

/// `=\r\n` as bytes starts at position `i` of `body`.
pub open spec fn soft_break_at(body: Seq<u8>, i: int) -> bool {
    break_at(body, i, 0x3du8, 0x0du8, 0x0au8)
}

/// The bytes of `body` with every quoted-printable soft line break removed.
pub open spec fn strip_soft_breaks(body: Seq<u8>) -> Seq<u8> {
    strip_from(body, 0, 0x3du8, 0x0du8, 0x0au8)
}

/// For each byte that `strip_soft_breaks` keeps, its position in `body`.
pub open spec fn kept_positions(body: Seq<u8>) -> Seq<int> {
    kept_from(body, 0, 0x3du8, 0x0du8, 0x0au8)
}

/// The characters of `text` with every `=\r\n` removed, as `str::replace("=\r\n", "")` does.
pub open spec fn strip_soft_breaks_text(text: Seq<char>) -> Seq<char> {
    strip_from(text, 0, '=', '\r', '\n')
}

/// The padded cleaned body: the kept bytes, then zeros up to `len`.
pub open spec fn padded_cleaned(body: Seq<u8>) -> Seq<u8> {
    strip_soft_breaks(body) + Seq::new(
        (body.len() - strip_soft_breaks(body).len()) as nat,
        |k: int| 0u8,
    )
}

/// The padded index map: the kept positions, then `usize::MAX` up to `len`.
pub open spec fn padded_index_map(body: Seq<u8>) -> Seq<usize> {
    Seq::new(kept_positions(body).len(), |k: int| kept_positions(body)[k] as usize) + Seq::new(
        (body.len() - kept_positions(body).len()) as nat,
        |k: int| usize::MAX,
    )
}

/// Facts about one step of the scan: how many items are kept from `i` on,
/// where they come from, and that their positions increase.
pub proof fn lemma_strip_from<T>(s: Seq<T>, i: int, eq: T, cr: T, lf: T)
    requires
        0 <= i <= s.len(),
    ensures
        strip_from(s, i, eq, cr, lf).len() == kept_from(s, i, eq, cr, lf).len(),
        strip_from(s, i, eq, cr, lf).len() <= s.len() - i,
        forall|k: int|
            0 <= k < kept_from(s, i, eq, cr, lf).len() ==> {
                &&& i <= #[trigger] kept_from(s, i, eq, cr, lf)[k] < s.len()
                &&& s[kept_from(s, i, eq, cr, lf)[k]] == strip_from(s, i, eq, cr, lf)[k]
            },
        forall|k: int, l: int|
            0 <= k < l < kept_from(s, i, eq, cr, lf).len() ==> #[trigger] kept_from(
                s,
                i,
                eq,
                cr,
                lf,
            )[k] < #[trigger] kept_from(s, i, eq, cr, lf)[l],
    decreases s.len() - i,
{
    if i >= s.len() {
    } else if break_at(s, i, eq, cr, lf) {
        lemma_strip_from(s, i + 3, eq, cr, lf);
    } else {
        lemma_strip_from(s, i + 1, eq, cr, lf);
        let rest = kept_from(s, i + 1, eq, cr, lf);
        let kept = kept_from(s, i, eq, cr, lf);
        assert(kept == seq![i] + rest);
        assert forall|k: int| 0 <= k < kept.len() implies {
            &&& i <= #[trigger] kept[k] < s.len()
            &&& s[kept[k]] == strip_from(s, i, eq, cr, lf)[k]
        } by {
            if k > 0 {
                assert(kept[k] == rest[k - 1]);
            }
        }
        assert forall|k: int, l: int| 0 <= k < l < kept.len() implies #[trigger] kept[k]
            < #[trigger] kept[l] by {
            assert(kept[l] == rest[l - 1]);
            if k > 0 {
                assert(kept[k] == rest[k - 1]);
            }
        }
    }
}

/// Where no soft line break starts at or after `i`, the scan keeps `s[i..]` whole.
pub proof fn lemma_strip_from_no_break<T>(s: Seq<T>, i: int, eq: T, cr: T, lf: T)
    requires
        0 <= i <= s.len(),
        forall|j: int| i <= j < s.len() ==> !#[trigger] break_at(s, j, eq, cr, lf),
    ensures
        strip_from(s, i, eq, cr, lf) == s.subrange(i, s.len() as int),
        kept_from(s, i, eq, cr, lf) == Seq::new((s.len() - i) as nat, |k: int| i + k),
    decreases s.len() - i,
{
    if i < s.len() {
        assert(!break_at(s, i, eq, cr, lf));
        lemma_strip_from_no_break(s, i + 1, eq, cr, lf);
        assert(strip_from(s, i, eq, cr, lf) =~= s.subrange(i, s.len() as int));
        assert(kept_from(s, i, eq, cr, lf) =~= Seq::new((s.len() - i) as nat, |k: int| i + k));
    } else {
        assert(strip_from(s, i, eq, cr, lf) =~= s.subrange(i, s.len() as int));
        assert(kept_from(s, i, eq, cr, lf) =~= Seq::new((s.len() - i) as nat, |k: int| i + k));
    }
}

/// Removing soft line breaks keeps the length of the body; each kept byte is
/// the byte of the body at the position that the index map gives for it, and
/// those positions increase; the padding is zero bytes mapped to `usize::MAX`.
pub proof fn law_soft_break_removal(body: Seq<u8>)
    requires
        body.len() <= usize::MAX,
    ensures
        strip_soft_breaks(body).len() <= body.len(),
        padded_cleaned(body).len() == body.len(),
        padded_index_map(body).len() == body.len(),
        forall|k: int|
            0 <= k < strip_soft_breaks(body).len() ==> {
                &&& (#[trigger] padded_index_map(body)[k]) < body.len()
                &&& body[padded_index_map(body)[k] as int] == padded_cleaned(body)[k]
            },
        forall|k: int, l: int|
            0 <= k < l < strip_soft_breaks(body).len() ==> #[trigger] padded_index_map(body)[k]
                < #[trigger] padded_index_map(body)[l],
        forall|k: int|
            strip_soft_breaks(body).len() <= k < body.len() ==> padded_cleaned(body)[k] == 0u8
                && #[trigger] padded_index_map(body)[k] == usize::MAX,
{
    lemma_strip_from(body, 0, 0x3du8, 0x0du8, 0x0au8);
    let kept = kept_positions(body);
    assert forall|k: int| 0 <= k < strip_soft_breaks(body).len() implies {
        &&& (#[trigger] padded_index_map(body)[k]) < body.len()
        &&& body[padded_index_map(body)[k] as int] == padded_cleaned(body)[k]
    } by {
        assert(padded_index_map(body)[k] == kept[k] as usize);
        assert(padded_cleaned(body)[k] == strip_soft_breaks(body)[k]);
    }
    assert forall|k: int, l: int| 0 <= k < l < strip_soft_breaks(body).len() implies #[trigger] padded_index_map(
        body,
    )[k] < #[trigger] padded_index_map(body)[l] by {
        assert(padded_index_map(body)[k] == kept[k] as usize);
        assert(padded_index_map(body)[l] == kept[l] as usize);
    }
}

/// A body without soft line breaks comes back unchanged, each byte mapped to
/// its own position.
pub proof fn law_no_soft_breaks_unchanged(body: Seq<u8>)
    requires
        body.len() <= usize::MAX,
        forall|i: int| 0 <= i < body.len() ==> !#[trigger] soft_break_at(body, i),
    ensures
        padded_cleaned(body) == body,
        forall|k: int| 0 <= k < body.len() ==> #[trigger] padded_index_map(body)[k] == k,
{
    assert forall|i: int| 0 <= i < body.len() implies !#[trigger] break_at(
        body,
        i,
        0x3du8,
        0x0du8,
        0x0au8,
    ) by {
        assert(!soft_break_at(body, i));
    }
    lemma_strip_from_no_break(body, 0, 0x3du8, 0x0du8, 0x0au8);
    assert(body.subrange(0, body.len() as int) =~= body);
    assert(padded_cleaned(body) =~= body);
    assert forall|k: int| 0 <= k < body.len() implies #[trigger] padded_index_map(body)[k] == k by {
        assert(kept_positions(body)[k] == k);
    }
}

/// Where no soft line break starts in `i..j`, the scan keeps `s[i..j]` as it is
/// and goes on from `j`.
pub proof fn lemma_strip_from_prefix<T>(s: Seq<T>, i: int, j: int, eq: T, cr: T, lf: T)
    requires
        0 <= i <= j <= s.len(),
        forall|k: int| i <= k < j ==> !#[trigger] break_at(s, k, eq, cr, lf),
    ensures
        strip_from(s, i, eq, cr, lf) == s.subrange(i, j) + strip_from(s, j, eq, cr, lf),
    decreases j - i,
{
    if i < j {
        assert(!break_at(s, i, eq, cr, lf));
        lemma_strip_from_prefix(s, i + 1, j, eq, cr, lf);
        assert(s.subrange(i, j) =~= seq![s[i]] + s.subrange(i + 1, j));
    } else {
        assert(s.subrange(i, j) =~= Seq::<T>::empty());
    }
}

/// The scan from position `i` is the scan of the suffix that starts at `i`.
pub proof fn lemma_strip_from_suffix<T>(s: Seq<T>, i: int, eq: T, cr: T, lf: T)
    requires
        0 <= i <= s.len(),
    ensures
        strip_from(s, i, eq, cr, lf) == strip_from(s.subrange(i, s.len() as int), 0, eq, cr, lf),
    decreases s.len() - i,
{
    let t = s.subrange(i, s.len() as int);
    if i == s.len() {
    } else if break_at(s, i, eq, cr, lf) {
        assert(break_at(t, 0, eq, cr, lf));
        lemma_strip_from_suffix(s, i + 3, eq, cr, lf);
        lemma_strip_from_suffix(t, 3, eq, cr, lf);
        assert(t.subrange(3, t.len() as int) =~= s.subrange(i + 3, s.len() as int));
    } else {
        assert(!break_at(t, 0, eq, cr, lf));
        lemma_strip_from_suffix(s, i + 1, eq, cr, lf);
        lemma_strip_from_suffix(t, 1, eq, cr, lf);
        assert(t.subrange(1, t.len() as int) =~= s.subrange(i + 1, s.len() as int));
    }
}

proof fn lemma_encode_cons(c: char, rest: Seq<char>)
    ensures
        encode_utf8(seq![c] + rest) == encode_scalar(c as u32) + encode_utf8(rest),
{
    assert((seq![c] + rest).drop_first() =~= rest);
}

proof fn lemma_encode_concat(a: Seq<char>, b: Seq<char>)
    ensures
        encode_utf8(a + b) == encode_utf8(a) + encode_utf8(b),
    decreases a.len(),
{
    if a.len() > 0 {
        assert((a + b).drop_first() =~= a.drop_first() + b);
        lemma_encode_concat(a.drop_first(), b);
        assert(encode_utf8(a + b) =~= encode_utf8(a) + encode_utf8(b));
    } else {
        assert(a + b =~= b);
    }
}

proof fn lemma_encode_nuls(n: nat)
    ensures
        encode_utf8(Seq::new(n, |k: int| '\0')) == Seq::new(n, |k: int| 0u8),
    decreases n,
{
    if n > 0 {
        lemma_encode_nuls((n - 1) as nat);
        let cs = Seq::new(n, |k: int| '\0');
        assert(cs.drop_first() =~= Seq::new((n - 1) as nat, |k: int| '\0'));
        assert(encode_scalar('\0' as u32) =~= seq![0u8]) by {
            assert((0u32 & 0x7F) as u8 == 0u8) by (bit_vector);
        }
        assert(encode_utf8(cs) =~= Seq::new(n, |k: int| 0u8));
    }
}

/// An ASCII character encodes as the one byte of its value; any other
/// character encodes as two to four bytes, none of them below 0x80.
proof fn lemma_encode_scalar_bytes(c: char)
    ensures
        (c as u32) < 0x80 ==> encode_scalar(c as u32) == seq![(c as u32) as u8],
        (c as u32) >= 0x80 ==> 2 <= encode_scalar(c as u32).len() <= 4 && forall|k: int|
            0 <= k < encode_scalar(c as u32).len() ==> #[trigger] encode_scalar(c as u32)[k]
                >= 0x80,
{
    let u = c as u32;
    if u < 0x80 {
        assert(((u & 0x7F) as u8) == (u as u8)) by (bit_vector)
            requires
                u < 0x80,
        ;
        assert(encode_scalar(u) =~= seq![u as u8]);
    } else {
        assert(0xC0u8 | (((u >> 6) & 0x1F) as u8) >= 0x80) by (bit_vector);
        assert(0xE0u8 | (((u >> 12) & 0x0F) as u8) >= 0x80) by (bit_vector);
        assert(0xF0u8 | (((u >> 18) & 0x7) as u8) >= 0x80) by (bit_vector);
        assert(0x80u8 | ((u & 0x3F) as u8) >= 0x80) by (bit_vector);
        assert(0x80u8 | (((u >> 6) & 0x3F) as u8) >= 0x80) by (bit_vector);
        assert(0x80u8 | (((u >> 12) & 0x3F) as u8) >= 0x80) by (bit_vector);
    }
}

/// The first byte of the encoding of a non-empty text tells whether the text
/// starts with a given ASCII character.
proof fn lemma_first_byte(cs: Seq<char>, a: char)
    requires
        cs.len() > 0,
        (a as u32) < 0x80,
    ensures
        encode_utf8(cs).len() > 0,
        encode_utf8(cs)[0] == (a as u32) as u8 <==> cs[0] == a,
{
    lemma_encode_scalar_bytes(cs[0]);
    let e = encode_scalar(cs[0] as u32);
    assert(encode_utf8(cs)[0] == e[0]);
    let x = cs[0] as u32;
    let y = a as u32;
    char_u32_cast(cs[0], x);
    char_u32_cast(a, y);
    assert((y as u8) as u32 == y) by (bit_vector)
        requires
            y < 0x80,
    ;
    if x < 0x80 {
        assert((x as u8 == y as u8) <==> x == y) by (bit_vector)
            requires
                x < 0x80,
                y < 0x80,
        ;
    }
}

/// Removing soft line breaks from the UTF-8 encoding of a text gives the
/// encoding of the text with its soft line breaks removed.
pub proof fn lemma_strip_encode(cs: Seq<char>)
    ensures
        strip_soft_breaks(encode_utf8(cs)) == encode_utf8(strip_soft_breaks_text(cs)),
    decreases cs.len(),
{
    let b = encode_utf8(cs);
    if cs.len() == 0 {
        return;
    }
    let c = cs[0];
    let rest = cs.drop_first();
    let e = encode_scalar(c as u32);
    lemma_encode_scalar_bytes(c);
    assert(b == e + encode_utf8(rest));
    assert(cs =~= seq![c] + rest);
    lemma_strip_from_suffix(cs, 1, '=', '\r', '\n');
    assert(cs.subrange(1, cs.len() as int) =~= rest);
    if break_at(cs, 0, '=', '\r', '\n') {
        let rest2 = rest.drop_first();
        let rest3 = rest2.drop_first();
        assert(rest =~= seq![rest[0]] + rest2);
        assert(rest2 =~= seq![rest2[0]] + rest3);
        lemma_encode_scalar_bytes(rest[0]);
        lemma_encode_scalar_bytes(rest2[0]);
        assert(encode_utf8(rest) == encode_scalar(rest[0] as u32) + encode_utf8(rest2));
        assert(encode_utf8(rest2) == encode_scalar(rest2[0] as u32) + encode_utf8(rest3));
        assert(b =~= seq![0x3du8, 0x0du8, 0x0au8] + encode_utf8(rest3));
        assert(break_at(b, 0, 0x3du8, 0x0du8, 0x0au8));
        lemma_strip_from_suffix(b, 3, 0x3du8, 0x0du8, 0x0au8);
        assert(b.subrange(3, b.len() as int) =~= encode_utf8(rest3));
        lemma_strip_encode(rest3);
        lemma_strip_from_suffix(cs, 3, '=', '\r', '\n');
        assert(cs.subrange(3, cs.len() as int) =~= rest3);
    } else {
        let w = e.len() as int;
        assert forall|k: int| 0 <= k < w implies !#[trigger] break_at(
            b,
            k,
            0x3du8,
            0x0du8,
            0x0au8,
        ) by {
            if k == 0 && (c as u32) < 0x80 {
                if break_at(b, 0, 0x3du8, 0x0du8, 0x0au8) {
                    lemma_first_byte(cs, '=');
                    assert(c == '=');
                    let rest2 = rest.drop_first();
                    assert(encode_utf8(rest) =~= b.subrange(1, b.len() as int));
                    assert(rest.len() > 0);
                    lemma_first_byte(rest, '\r');
                    assert(rest[0] == '\r');
                    lemma_encode_scalar_bytes(rest[0]);
                    assert(encode_utf8(rest) == encode_scalar(rest[0] as u32) + encode_utf8(rest2));
                    assert(encode_utf8(rest2) =~= b.subrange(2, b.len() as int));
                    assert(rest2.len() > 0);
                    lemma_first_byte(rest2, '\n');
                    assert(rest2[0] == '\n');
                    assert(cs[1] == rest[0]);
                    assert(cs[2] == rest2[0]);
                }
            } else {
                assert(b[k] == e[k]);
            }
        }
        lemma_strip_from_prefix(b, 0, w, 0x3du8, 0x0du8, 0x0au8);
        assert(b.subrange(0, w) =~= e);
        lemma_strip_from_suffix(b, w, 0x3du8, 0x0du8, 0x0au8);
        assert(b.subrange(w, b.len() as int) =~= encode_utf8(rest));
        lemma_strip_encode(rest);
        assert(strip_soft_breaks_text(cs) == seq![c] + strip_soft_breaks_text(rest));
        lemma_encode_cons(c, strip_soft_breaks_text(rest));
    }
}

/// On valid UTF-8, removing soft line breaks and padding keeps the bytes valid
/// UTF-8, and they encode the text with its soft line breaks `=\r\n` removed,
/// followed by as many NUL characters as bytes were removed.
pub proof fn law_soft_breaks_in_utf8(body: Seq<u8>)
    requires
        valid_utf8(body),
    ensures
        valid_utf8(padded_cleaned(body)),
        decode_utf8(padded_cleaned(body)) == strip_soft_breaks_text(decode_utf8(body)) + Seq::new(
            (body.len() - strip_soft_breaks(body).len()) as nat,
            |k: int| '\0',
        ),
{
    let cs = decode_utf8(body);
    decode_utf8_encode_utf8(body);
    lemma_strip_encode(cs);
    let stripped = strip_soft_breaks(body);
    lemma_strip_from(body, 0, 0x3du8, 0x0du8, 0x0au8);
    let n = (body.len() - stripped.len()) as nat;
    let nuls = Seq::new(n, |k: int| '\0');
    lemma_encode_nuls(n);
    lemma_encode_concat(strip_soft_breaks_text(cs), nuls);
    assert(padded_cleaned(body) == encode_utf8(strip_soft_breaks_text(cs) + nuls));
    encode_utf8_valid_utf8(strip_soft_breaks_text(cs) + nuls);
    encode_utf8_decode_utf8(strip_soft_breaks_text(cs) + nuls);
}

/// The positions kept by the scan from `i` are those kept in the suffix that
/// starts at `i`, moved by `i`.
pub proof fn lemma_kept_from_suffix<T>(s: Seq<T>, i: int, eq: T, cr: T, lf: T)
    requires
        0 <= i <= s.len(),
    ensures
        kept_from(s, i, eq, cr, lf) == kept_from(s.subrange(i, s.len() as int), 0, eq, cr, lf).map_values(
            |k: int| k + i,
        ),
    decreases s.len() - i,
{
    let t = s.subrange(i, s.len() as int);
    if i == s.len() {
        assert(kept_from(t, 0, eq, cr, lf).map_values(|k: int| k + i) =~= Seq::<int>::empty());
    } else if break_at(s, i, eq, cr, lf) {
        assert(break_at(t, 0, eq, cr, lf));
        lemma_kept_from_suffix(s, i + 3, eq, cr, lf);
        lemma_kept_from_suffix(t, 3, eq, cr, lf);
        assert(t.subrange(3, t.len() as int) =~= s.subrange(i + 3, s.len() as int));
        let inner = kept_from(s.subrange(i + 3, s.len() as int), 0, eq, cr, lf);
        assert(inner.map_values(|k: int| k + (i + 3)) =~= inner.map_values(|k: int| k + 3).map_values(
            |k: int| k + i,
        ));
    } else {
        assert(!break_at(t, 0, eq, cr, lf));
        lemma_kept_from_suffix(s, i + 1, eq, cr, lf);
        lemma_kept_from_suffix(t, 1, eq, cr, lf);
        assert(t.subrange(1, t.len() as int) =~= s.subrange(i + 1, s.len() as int));
        let inner = kept_from(s.subrange(i + 1, s.len() as int), 0, eq, cr, lf);
        assert((seq![0int] + inner.map_values(|k: int| k + 1)).map_values(|k: int| k + i)
            =~= seq![i] + inner.map_values(|k: int| k + (i + 1)));
    }
}

pub(crate) proof fn lemma_concat_from<T>(a: Seq<T>, b: Seq<T>, i: int, eq: T, cr: T, lf: T)
    requires
        0 <= i <= a.len(),
        a.len() == 0 || (a.last() != eq && a.last() != cr),
    ensures
        strip_from(a + b, i, eq, cr, lf) == strip_from(a, i, eq, cr, lf) + strip_from(b, 0, eq, cr, lf),
        kept_from(a + b, i, eq, cr, lf) == kept_from(a, i, eq, cr, lf) + kept_from(b, 0, eq, cr, lf).map_values(
            |k: int| k + a.len(),
        ),
    decreases a.len() - i,
{
    let s = a + b;
    if i == a.len() {
        lemma_strip_from_suffix(s, i, eq, cr, lf);
        lemma_kept_from_suffix(s, i, eq, cr, lf);
        assert(s.subrange(i, s.len() as int) =~= b);
        assert(strip_from(a, i, eq, cr, lf) =~= Seq::<T>::empty());
        assert(kept_from(a, i, eq, cr, lf) =~= Seq::<int>::empty());
        assert(strip_from(a, i, eq, cr, lf) + strip_from(b, 0, eq, cr, lf) =~= strip_from(b, 0, eq, cr, lf));
        assert(kept_from(a, i, eq, cr, lf) + kept_from(b, 0, eq, cr, lf).map_values(|k: int| k + a.len())
            =~= kept_from(b, 0, eq, cr, lf).map_values(|k: int| k + a.len()));
    } else {
        if i + 3 <= a.len() {
            assert(break_at(s, i, eq, cr, lf) == break_at(a, i, eq, cr, lf));
        } else {
            assert(!break_at(a, i, eq, cr, lf));
            if i == a.len() - 1 {
                assert(s[i] == a.last());
            } else {
                assert(s[i + 1] == a.last());
            }
            assert(!break_at(s, i, eq, cr, lf));
        }
        if break_at(a, i, eq, cr, lf) {
            lemma_concat_from(a, b, i + 3, eq, cr, lf);
        } else {
            lemma_concat_from(a, b, i + 1, eq, cr, lf);
            assert(s[i] == a[i]);
            assert(strip_from(s, i, eq, cr, lf) =~= strip_from(a, i, eq, cr, lf) + strip_from(b, 0, eq, cr, lf));
            assert(kept_from(s, i, eq, cr, lf) =~= kept_from(a, i, eq, cr, lf) + kept_from(b, 0, eq, cr, lf).map_values(
                |k: int| k + a.len(),
            ));
        }
    }
}

/// Where the first part does not end inside a possible soft line break (its
/// last byte is neither `=` nor `\r`), removing soft line breaks from two
/// parts joined is removing them from each part: the kept bytes join, and the
/// kept positions of the second part move by the length of the first.
pub proof fn law_soft_break_removal_concat(a: Seq<u8>, b: Seq<u8>)
    requires
        a.len() == 0 || (a.last() != 0x3du8 && a.last() != 0x0du8),
    ensures
        strip_soft_breaks(a + b) == strip_soft_breaks(a) + strip_soft_breaks(b),
        kept_positions(a + b) == kept_positions(a) + kept_positions(b).map_values(
            |k: int| k + a.len(),
        ),
{
    lemma_concat_from(a, b, 0, 0x3du8, 0x0du8, 0x0au8);
}

/// Removing soft line breaks from text: a lone `=\r\n` vanishes, a text with
/// no soft line break stays as it is, and texts joined after a first part that
/// does not end in `=` or `\r` lose their soft line breaks part by part.
pub proof fn law_strip_soft_breaks_text(a: Seq<char>, b: Seq<char>)
    ensures
        strip_soft_breaks_text(seq!['=', '\r', '\n']) == Seq::<char>::empty(),
        (forall|i: int| !#[trigger] break_at(a, i, '=', '\r', '\n')) ==> strip_soft_breaks_text(a)
            == a,
        a.len() == 0 || (a.last() != '=' && a.last() != '\r') ==> strip_soft_breaks_text(a + b)
            == strip_soft_breaks_text(a) + strip_soft_breaks_text(b),
{
    let t = seq!['=', '\r', '\n'];
    assert(break_at(t, 0, '=', '\r', '\n'));
    assert(strip_from(t, 3, '=', '\r', '\n') == Seq::<char>::empty());
    if forall|i: int| !#[trigger] break_at(a, i, '=', '\r', '\n') {
        lemma_strip_from_no_break(a, 0, '=', '\r', '\n');
        assert(a.subrange(0, a.len() as int) =~= a);
    }
    if a.len() == 0 || (a.last() != '=' && a.last() != '\r') {
        lemma_concat_from(a, b, 0, '=', '\r', '\n');
    }
}

/// A body that is one soft line break cleans to three zero bytes, all padding.
pub proof fn law_lone_soft_break(body: Seq<u8>)
    requires
        body == seq![0x3du8, 0x0du8, 0x0au8],
    ensures
        padded_cleaned(body) == seq![0u8, 0u8, 0u8],
        padded_index_map(body) == seq![usize::MAX, usize::MAX, usize::MAX],
{
    assert(soft_break_at(body, 0));
    assert(strip_from(body, 3, 0x3du8, 0x0du8, 0x0au8) == Seq::<u8>::empty());
    assert(kept_from(body, 3, 0x3du8, 0x0du8, 0x0au8) == Seq::<int>::empty());
    assert(padded_cleaned(body) =~= seq![0u8, 0u8, 0u8]);
    assert(padded_index_map(body) =~= seq![usize::MAX, usize::MAX, usize::MAX]);
}

/// Removes quoted-printable soft line breaks (`=\r\n`) from `body`, scanning left
/// to right, and pads the result with zero bytes back to the length of `body`.
/// The second vector maps each position of the cleaned bytes to the position of
/// that byte in `body`; positions that hold padding map to `usize::MAX`.
pub fn remove_quoted_printable_soft_breaks(body: Vec<u8>) -> (res: (Vec<u8>, Vec<usize>))
    ensures
        res.0@ == padded_cleaned(body@),
        res.1@ == padded_index_map(body@),
        res.0.len() == body.len(),
        res.1.len() == body.len(),
{
    let original_len = body.len();
    let mut cleaned: Vec<u8> = Vec::with_capacity(original_len);
    let mut index_map: Vec<usize> = Vec::with_capacity(original_len);
    let ghost s = body@;
    let mut i: usize = 0;
    while i < original_len
        invariant
            original_len == body.len(),
            s == body@,
            0 <= i <= original_len,
            cleaned@ + strip_from(s, i as int, 0x3du8, 0x0du8, 0x0au8) == strip_soft_breaks(s),
            Seq::new(index_map@.len(), |k: int| index_map@[k] as int) + kept_from(
                s,
                i as int,
                0x3du8,
                0x0du8,
                0x0au8,
            ) == kept_positions(s),
        decreases original_len - i,
    {
        let byte = body[i];
        if byte == 0x3d && original_len - i >= 3 && body[i + 1] == 0x0d && body[i + 2] == 0x0a {
            assert(soft_break_at(s, i as int));
            i = i + 3;
        } else {
            assert(!soft_break_at(s, i as int));
            let ghost old_cleaned = cleaned@;
            let ghost old_map = Seq::new(index_map@.len(), |k: int| index_map@[k] as int);
            cleaned.push(byte);
            index_map.push(i);
            assert(cleaned@ + strip_from(s, i + 1, 0x3du8, 0x0du8, 0x0au8) =~= old_cleaned
                + strip_from(s, i as int, 0x3du8, 0x0du8, 0x0au8));
            assert(Seq::new(index_map@.len(), |k: int| index_map@[k] as int) + kept_from(
                s,
                i + 1,
                0x3du8,
                0x0du8,
                0x0au8,
            ) =~= old_map + kept_from(s, i as int, 0x3du8, 0x0du8, 0x0au8));
            i = i + 1;
        }
    }
    proof {
        assert(cleaned@ =~= strip_soft_breaks(s));
        assert(Seq::new(index_map@.len(), |k: int| index_map@[k] as int) =~= kept_positions(s));
        lemma_strip_from(s, 0, 0x3du8, 0x0du8, 0x0au8);
    }
    let kept_len = cleaned.len();
    while cleaned.len() < original_len
        invariant
            kept_len == strip_soft_breaks(s).len(),
            kept_len <= cleaned.len() <= original_len,
            original_len == s.len(),
            forall|k: int| 0 <= k < kept_len ==> cleaned@[k] == strip_soft_breaks(s)[k],
            forall|k: int| kept_len <= k < cleaned.len() ==> cleaned@[k] == 0u8,
        decreases original_len - cleaned.len(),
    {
        cleaned.push(0);
    }
    while index_map.len() < original_len
        invariant
            kept_len == kept_positions(s).len(),
            kept_len <= index_map.len() <= original_len,
            original_len == s.len(),
            forall|k: int| 0 <= k < kept_len ==> index_map@[k] as int == kept_positions(s)[k],
            forall|k: int| kept_len <= k < index_map.len() ==> index_map@[k] == usize::MAX,
        decreases original_len - index_map.len(),
    {
        index_map.push(usize::MAX);
    }
    proof {
        assert(cleaned@ =~= padded_cleaned(s));
        assert(index_map@ =~= padded_index_map(s));
    }
    (cleaned, index_map)
}

} // verus!
