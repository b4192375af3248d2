//! The hexadecimal name of a cluster, computed from its history in the tree,
//! and the history read back from such a name.

use vstd::prelude::*;
use vstd::string::StrSliceExecFns;

use crate::cluster::Cluster;

verus! {

/// The numeric value of one bit.
pub open spec fn bit_value(b: bool) -> nat {
    if b {
        1
    } else {
        0
    }
}

/// The lower-case hexadecimal digit for a value below sixteen.
pub open spec fn hex_digit(v: nat) -> char {
    if v < 10 {
        (48 + v) as char
    } else {
        (87 + v) as char
    }
}

/// How many `false` bits are put in front of a history of length `d` so that
/// its length becomes a multiple of four.
pub open spec fn pad_len(d: nat) -> nat {
    if d % 4 == 0 {
        0
    } else {
        (4 - d % 4) as nat
    }
}

/// The history with its leading padding.
pub open spec fn padded_history(h: Seq<bool>) -> Seq<bool> {
    Seq::new(pad_len(h.len()), |i: int| false) + h
}

/// The value of the `i`-th group of four bits, most significant bit first.
pub open spec fn nibble_at(bits: Seq<bool>, i: int) -> nat {
    8 * bit_value(bits[4 * i]) + 4 * bit_value(bits[4 * i + 1]) + 2 * bit_value(bits[4 * i + 2])
        + bit_value(bits[4 * i + 3])
}

/// The name of a history: the padded history read as a hexadecimal number,
/// one lower-case digit for each group of four bits.
pub open spec fn history_name(h: Seq<bool>) -> Seq<char> {
    let p = padded_history(h);
    Seq::new(p.len() / 4, |i: int| hex_digit(nibble_at(p, i)))
}

/// The byte that a character is truncated to.
pub open spec fn char_byte(c: char) -> u8 {
    (c as u32 % 256) as u8
}

/// The four-bit chunk that a digit of a name stands for: `'0'..='9'` are
/// shifted down by 48, everything from `'a'` on by 87.
pub open spec fn char_chunk(c: char) -> u8 {
    let b = char_byte(c);
    if b < 97 {
        (b - 48) as u8
    } else {
        (b - 87) as u8
    }
}

/// The low four bits of a chunk, most significant first.
pub open spec fn chunk_bits(v: u8) -> Seq<bool> {
    seq![v & 8u8 != 0, v & 4u8 != 0, v & 2u8 != 0, v & 1u8 != 0]
}

/// The bits of a sequence of digits, four per digit.
pub open spec fn chars_bits(s: Seq<char>) -> Seq<bool>
    decreases s.len(),
{
    if s.len() == 0 {
        Seq::empty()
    } else {
        chars_bits(s.drop_last()) + chunk_bits(char_chunk(s.last()))
    }
}

/// Whether some bit is set.
pub open spec fn has_true(s: Seq<bool>) -> bool {
    exists|i: int| 0 <= i < s.len() && s[i]
}

/// The bits from the first set bit on; empty when no bit is set.
pub open spec fn from_first_true(s: Seq<bool>) -> Seq<bool>
    decreases s.len(),
{
    if s.len() == 0 {
        s
    } else if s[0] {
        s
    } else {
        from_first_true(s.drop_first())
    }
}

/// The history that a name stands for: the bits of the first digit from its
/// highest set bit on, then four bits for each further digit.
pub open spec fn name_history(n: Seq<char>) -> Seq<bool> {
    from_first_true(chunk_bits(char_chunk(n[0]))) + chars_bits(n.drop_first())
}

/// The names that can be read back: not empty, a first character of one
/// byte, and no character whose byte is below `'0'`.
pub open spec fn name_is_readable(n: Seq<char>) -> bool {
    &&& n.len() > 0
    &&& (n[0] as u32) < 128
    &&& forall|i: int| 0 <= i < n.len() ==> char_byte(#[trigger] n[i]) >= 48
}

/// Whether a character is a lower-case hexadecimal digit.
pub open spec fn is_hex_digit(c: char) -> bool {
    ('0' <= c && c <= '9') || ('a' <= c && c <= 'f')
}

/// The names made of lower-case hexadecimal digits that do not start with `'0'`.
pub open spec fn is_canonical_name(n: Seq<char>) -> bool {
    &&& n.len() > 0
    &&& n[0] != '0'
    &&& forall|i: int| 0 <= i < n.len() ==> is_hex_digit(#[trigger] n[i])
}

proof fn lemma_from_first_true_push(s: Seq<bool>, b: bool)
    ensures
        from_first_true(s.push(b)) == (if has_true(s) {
            from_first_true(s).push(b)
        } else if b {
            seq![true]
        } else {
            Seq::<bool>::empty()
        }),
    decreases s.len(),
{
    if s.len() == 0 {
        assert(s.push(b).drop_first() =~= Seq::<bool>::empty());
        assert(s.push(b) =~= seq![b]);
        assert(from_first_true(Seq::<bool>::empty()) == Seq::<bool>::empty());
        assert(!has_true(s));
    } else if s[0] {
        assert(has_true(s));
        assert(s.push(b)[0]);
    } else {
        assert(!s.push(b)[0]);
        assert(s.push(b).drop_first() =~= s.drop_first().push(b));
        lemma_from_first_true_push(s.drop_first(), b);
        if has_true(s) {
            let i = choose|i: int| 0 <= i < s.len() && s[i];
            assert(s.drop_first()[i - 1]);
        }
        if has_true(s.drop_first()) {
            let i = choose|i: int| 0 <= i < s.drop_first().len() && s.drop_first()[i];
            assert(s[i + 1]);
        }
    }
}

proof fn lemma_from_first_true_none(s: Seq<bool>)
    requires
        !has_true(s),
    ensures
        from_first_true(s) == Seq::<bool>::empty(),
    decreases s.len(),
{
    if s.len() > 0 {
        assert(!s[0]);
        assert(!has_true(s.drop_first())) by {
            if has_true(s.drop_first()) {
                let i = choose|i: int| 0 <= i < s.drop_first().len() && #[trigger] s.drop_first()[i];
                assert(s[i + 1]);
            }
        }
        lemma_from_first_true_none(s.drop_first());
    }
}

proof fn lemma_from_first_true_after_zeros(z: Seq<bool>, s: Seq<bool>)
    requires
        forall|i: int| 0 <= i < z.len() ==> !z[i],
        s.len() > 0,
        s[0],
    ensures
        from_first_true(z + s) == s,
    decreases z.len(),
{
    if z.len() == 0 {
        assert(z + s =~= s);
    } else {
        assert((z + s).drop_first() =~= z.drop_first() + s);
        lemma_from_first_true_after_zeros(z.drop_first(), s);
    }
}

proof fn lemma_chunk_bits_value(v: u8)
    requires
        v < 16,
    ensures
        8 * bit_value(chunk_bits(v)[0]) + 4 * bit_value(chunk_bits(v)[1]) + 2 * bit_value(
            chunk_bits(v)[2],
        ) + bit_value(chunk_bits(v)[3]) == v,
{
    let b3 = v & 8u8 != 0;
    let b2 = v & 4u8 != 0;
    let b1 = v & 2u8 != 0;
    let b0 = v & 1u8 != 0;
    assert(v < 16 ==> v == (if v & 8u8 != 0 { 8u8 } else { 0u8 }) + (if v & 4u8 != 0 {
        4u8
    } else {
        0u8
    }) + (if v & 2u8 != 0 { 2u8 } else { 0u8 }) + (if v & 1u8 != 0 { 1u8 } else { 0u8 }))
        by (bit_vector);
}

proof fn lemma_chunk_of_bits(a: bool, b: bool, c: bool, d: bool)
    ensures
        ({
            let v = (8 * bit_value(a) + 4 * bit_value(b) + 2 * bit_value(c) + bit_value(d)) as u8;
            chunk_bits(v) == seq![a, b, c, d]
        }),
{
    let v = (8 * bit_value(a) + 4 * bit_value(b) + 2 * bit_value(c) + bit_value(d)) as u8;
    let x: u8 = if a { 8 } else { 0 };
    let y: u8 = if b { 4 } else { 0 };
    let z: u8 = if c { 2 } else { 0 };
    let w: u8 = if d { 1 } else { 0 };
    assert(v == x + y + z + w);
    assert((x == 8u8 || x == 0u8) && (y == 4u8 || y == 0u8) && (z == 2u8 || z == 0u8) && (w == 1u8
        || w == 0u8) ==> {
        let u = (x + y + z + w) as u8;
        &&& (u & 8u8 != 0) == (x == 8u8)
        &&& (u & 4u8 != 0) == (y == 4u8)
        &&& (u & 2u8 != 0) == (z == 2u8)
        &&& (u & 1u8 != 0) == (w == 1u8)
    }) by (bit_vector);
    assert(chunk_bits(v) =~= seq![a, b, c, d]);
}

proof fn lemma_hex_digit_chunk(v: nat)
    requires
        v < 16,
    ensures
        char_chunk(hex_digit(v)) == v,
        char_byte(hex_digit(v)) >= 48,
        (hex_digit(v) as u32) < 128,
        is_hex_digit(hex_digit(v)),
        (v != 0 ==> hex_digit(v) != '0'),
{
}

proof fn lemma_chunk_hex_digit(c: char)
    requires
        is_hex_digit(c),
    ensures
        char_chunk(c) < 16,
        hex_digit(char_chunk(c) as nat) == c,
        char_chunk(c) == 0 <==> c == '0',
{
}

/// The bits of a sequence of digits, digit by digit.
proof fn lemma_chars_bits_index(s: Seq<char>)
    ensures
        chars_bits(s).len() == 4 * s.len(),
        forall|i: int, t: int|
            0 <= i < s.len() && 0 <= t < 4 ==> #[trigger] chars_bits(s)[4 * i + t] == chunk_bits(
                char_chunk(s[i]),
            )[t],
    decreases s.len(),
{
    if s.len() > 0 {
        lemma_chars_bits_index(s.drop_last());
        let p = s.drop_last();
        assert forall|i: int, t: int| 0 <= i < s.len() && 0 <= t < 4 implies #[trigger] chars_bits(
            s,
        )[4 * i + t] == chunk_bits(char_chunk(s[i]))[t] by {
            if i < s.len() - 1 {
                assert(p[i] == s[i]);
                assert(chars_bits(p)[4 * i + t] == chunk_bits(char_chunk(p[i]))[t]);
            }
        }
    }
}

/// A history that starts with `true` is given back by the name of its name.
pub proof fn lemma_name_history_of_history_name(h: Seq<bool>)
    requires
        h.len() > 0,
        h[0],
    ensures
        name_is_readable(history_name(h)),
        is_canonical_name(history_name(h)),
        name_history(history_name(h)) == h,
{
    let p = padded_history(h);
    let n = history_name(h);
    let k = pad_len(h.len());
    assert(p.len() % 4 == 0);
    assert(n.len() >= 1);
    assert forall|i: int| 0 <= i < n.len() implies #[trigger] nibble_at(p, i) < 16 by {}
    assert forall|i: int| 0 <= i < n.len() implies char_byte(#[trigger] n[i]) >= 48
        && is_hex_digit(n[i]) && char_chunk(n[i]) == nibble_at(p, i) by {
        lemma_hex_digit_chunk(nibble_at(p, i));
    }
    // the first digit is not zero: its group holds the leading `true`
    assert(p[k as int] == h[0]);
    assert(nibble_at(p, 0) != 0);
    lemma_hex_digit_chunk(nibble_at(p, 0));
    assert(name_is_readable(n));
    assert(is_canonical_name(n));
    // the bits of every digit are those of its group
    assert forall|i: int| 0 <= i < n.len() implies #[trigger] chunk_bits(char_chunk(n[i]))
        == p.subrange(4 * i, 4 * i + 4) by {
        lemma_chunk_of_bits(p[4 * i], p[4 * i + 1], p[4 * i + 2], p[4 * i + 3]);
        assert(seq![p[4 * i], p[4 * i + 1], p[4 * i + 2], p[4 * i + 3]] =~= p.subrange(
            4 * i,
            4 * i + 4,
        ));
    }
    // the later digits give the bits after the first group
    let rest = n.drop_first();
    lemma_chars_bits_index(rest);
    assert forall|j: int| 0 <= j < chars_bits(rest).len() implies #[trigger] chars_bits(rest)[j]
        == p[4 + j] by {
        let i = j / 4;
        let t = j % 4;
        assert(j == 4 * i + t);
        assert(rest[i] == n[i + 1]);
        assert(chunk_bits(char_chunk(n[i + 1])) == p.subrange(4 * (i + 1), 4 * (i + 1) + 4));
        assert(chars_bits(rest)[4 * i + t] == chunk_bits(char_chunk(rest[i]))[t]);
    }
    assert(chars_bits(rest) =~= p.subrange(4, p.len() as int));
    // the first digit gives the history's first bits
    let z = Seq::new(k, |i: int| false);
    assert(p.subrange(0, 4) =~= z + h.subrange(0, 4 - k));
    lemma_from_first_true_after_zeros(z, h.subrange(0, 4 - k));
    assert(chunk_bits(char_chunk(n[0])) == p.subrange(0, 4));
    assert(p.subrange(4, p.len() as int) =~= h.subrange(4 - k, h.len() as int));
    assert(name_history(n) =~= h);
}

/// A name of lower-case hexadecimal digits that does not start with `'0'` is
/// given back by the name of its history.
pub proof fn lemma_history_name_of_name_history(n: Seq<char>)
    requires
        is_canonical_name(n),
    ensures
        name_is_readable(n),
        history_name(name_history(n)) == n,
{
    assert forall|i: int| 0 <= i < n.len() implies char_byte(#[trigger] n[i]) >= 48
        && char_chunk(n[i]) < 16 && hex_digit(char_chunk(n[i]) as nat) == n[i] by {
        lemma_chunk_hex_digit(n[i]);
    }
    lemma_chunk_hex_digit(n[0]);
    let b = chars_bits(n);
    lemma_chars_bits_index(n);
    let first = chunk_bits(char_chunk(n[0]));
    assert forall|t: int| 0 <= t < 4 implies #[trigger] b[t] == first[t] by {
        assert(b[4 * 0 + t] == chunk_bits(char_chunk(n[0]))[t]);
    }
    // the first set bit of the first digit
    lemma_chunk_bits_value(char_chunk(n[0]));
    let j: int = if first[0] {
        0
    } else if first[1] {
        1
    } else if first[2] {
        2
    } else {
        3
    };
    assert(first[j]);
    let z = Seq::new(j as nat, |i: int| false);
    assert(first =~= z + first.subrange(j, 4));
    lemma_from_first_true_after_zeros(z, first.subrange(j, 4));
    let h = name_history(n);
    let rest = n.drop_first();
    lemma_chars_bits_index(rest);
    assert(chars_bits(rest) =~= b.subrange(4, b.len() as int)) by {
        assert forall|x: int| 0 <= x < chars_bits(rest).len() implies #[trigger] chars_bits(
            rest,
        )[x] == b[4 + x] by {
            let i = x / 4;
            let t = x % 4;
            assert(x == 4 * i + t);
            assert(rest[i] == n[i + 1]);
            assert(chars_bits(rest)[4 * i + t] == chunk_bits(char_chunk(rest[i]))[t]);
            assert(b[4 * (i + 1) + t] == chunk_bits(char_chunk(n[i + 1]))[t]);
        }
    }
    assert(h =~= b.subrange(j, b.len() as int));
    assert(h.len() == 4 * n.len() - j);
    assert(pad_len(h.len()) == j);
    let p = padded_history(h);
    assert(p =~= b);
    assert forall|i: int| 0 <= i < n.len() implies #[trigger] nibble_at(p, i) == char_chunk(
        n[i],
    ) by {
        lemma_chunk_bits_value(char_chunk(n[i]));
        assert(b[4 * i + 0] == chunk_bits(char_chunk(n[i]))[0]);
        assert(b[4 * i + 1] == chunk_bits(char_chunk(n[i]))[1]);
        assert(b[4 * i + 2] == chunk_bits(char_chunk(n[i]))[2]);
        assert(b[4 * i + 3] == chunk_bits(char_chunk(n[i]))[3]);
    }
    assert(history_name(h) =~= n);
}

/// Appends a character to a string, with `String::push` of std.
///
/// Trusted: `String::push` appends the given `char` to the end of the string.
#[verifier::external_body]
fn push_char(s: &mut String, c: char)
    ensures
        final(s)@ == old(s)@.push(c),
{
    s.push(c);
}

/// The lower-case hexadecimal digit of a value below sixteen.
fn hex_char(v: u8) -> (c: char)
    requires
        v < 16,
    ensures
        c == hex_digit(v as nat),
{
    if v < 10 {
        (48u8 + v) as char
    } else {
        (87u8 + v) as char
    }
}

/// The chunk that a digit stands for: its byte less 48 below `'a'`, less 87 from `'a'` on.
fn digit_chunk(c: char) -> (v: u8)
    requires
        char_byte(c) >= 48,
    ensures
        v == char_chunk(c),
{
    let code: u32 = c as u32;
    let mut chunk: u8 = (code % 256) as u8;
    if chunk < 97 {
        chunk -= 48;
    } else {
        chunk -= 87;
    }
    chunk
}

/// The bit of a chunk tested by the mask `1 << (3 - i)`.
fn chunk_bit(chunk: u8, i: u8) -> (b: bool)
    requires
        i < 4,
    ensures
        b == chunk_bits(chunk)[i as int],
{
    let shift: u8 = 3 - i;
    let mask: u8 = 1u8 << shift;
    assert(shift < 4 && shift == 3 - i ==> (1u8 << shift) == (if i == 0 {
        8u8
    } else if i == 1 {
        4u8
    } else if i == 2 {
        2u8
    } else {
        1u8
    })) by (bit_vector);
    (chunk & mask) > 0
}

impl Cluster {
    /// The `name` of the `Cluster` as a hex-String.
    ///
    /// This is a human-readable representation of the `Cluster`'s `history`.
    /// It may be used to store the `Cluster` in a database, or to identify the
    /// `Cluster` in a visualization.
    pub fn name(&self) -> (n: String)
        ensures
            n@ == history_name(self.history@),
    {
        Self::history_to_name(self.history.as_slice())
    }

    /// Returns a human-readable hexadecimal representation of a `Cluster`
    /// history: the history, with `false` bits put in front until its length
    /// is a multiple of four, read four bits at a time as lower-case
    /// hexadecimal digits.
    pub fn history_to_name(history: &[bool]) -> (name: String)
        ensures
            name@ == history_name(history@),
    {
        let d = history.len();
        let padding: usize = if d % 4 == 0 {
            0
        } else {
            4 - d % 4
        };
        let chunks: usize = if d % 4 == 0 {
            d / 4
        } else {
            d / 4 + 1
        };
        let ghost p = padded_history(history@);
        assert(padding == pad_len(d as nat));
        assert(p.len() == padding + d);
        assert(p.len() / 4 == chunks);
        let mut name = String::new();
        let mut k: usize = 0;
        while k < chunks
            invariant
                d == history@.len(),
                padding == pad_len(d as nat),
                p == padded_history(history@),
                p.len() == padding + d,
                chunks == p.len() / 4,
                k <= chunks,
                name@ == Seq::new(k as nat, |i: int| hex_digit(nibble_at(p, i))),
            decreases chunks - k,
        {
            let mut value: u8 = 0;
            let mut t: usize = 0;
            assert(4 * k + 4 <= padding + d);
            while t < 4
                invariant
                    d == history@.len(),
                    padding == pad_len(d as nat),
                    p == padded_history(history@),
                    p.len() == padding + d,
                    k < chunks,
                    4 * k + 4 <= padding + d,
                    t <= 4,
                    value < 16,
                    value == (if t == 0 {
                        0
                    } else if t == 1 {
                        bit_value(p[4 * k])
                    } else if t == 2 {
                        2 * bit_value(p[4 * k]) + bit_value(p[4 * k + 1])
                    } else if t == 3 {
                        4 * bit_value(p[4 * k]) + 2 * bit_value(p[4 * k + 1]) + bit_value(
                            p[4 * k + 2],
                        )
                    } else {
                        nibble_at(p, k as int)
                    }),
                decreases 4 - t,
            {
                let bit: bool = if k == 0 {
                    if t < padding {
                        false
                    } else {
                        history[t - padding]
                    }
                } else {
                    history[4 * k - padding + t]
                };
                assert(bit == p[4 * k + t]);
                value = 2 * value + if bit {
                    1
                } else {
                    0
                };
                t = t + 1;
            }
            push_char(&mut name, hex_char(value));
            k = k + 1;
            assert(name@ =~= Seq::new(k as nat, |i: int| hex_digit(nibble_at(p, i))));
        }
        name
    }

    /// Whether `name_to_history` can read `name`: it is not empty, its first
    /// character takes one byte, and no character has a low byte below `'0'`.
    pub fn is_readable_name(name: &str) -> (b: bool)
        ensures
            b == name_is_readable(name@),
    {
        let n = name.unicode_len();
        if n == 0 {
            return false;
        }
        let first: u32 = name.get_char(0) as u32;
        if first >= 128 {
            return false;
        }
        let mut j: usize = 0;
        while j < n
            invariant
                n == name@.len(),
                j <= n,
                forall|i: int| 0 <= i < j ==> char_byte(#[trigger] name@[i]) >= 48,
            decreases n - j,
        {
            let c = name.get_char(j);
            let code: u32 = c as u32;
            let byte: u8 = (code % 256) as u8;
            if byte < 48 {
                return false;
            }
            j = j + 1;
        }
        true
    }

    /// Converts the hexadecimal representation of a cluster history obtained
    /// from `Cluster::name` back into a `Vec<bool>`: the bits of the first
    /// digit from its highest set bit on, then four bits for every further
    /// digit.
    pub fn name_to_history(name: &str) -> (history: Vec<bool>)
        requires
            name_is_readable(name@),
        ensures
            history@ == name_history(name@),
    {
        let n = name.unicode_len();
        let mut history: Vec<bool> = Vec::new();
        let chunk = digit_chunk(name.get_char(0));
        let ghost first = chunk_bits(chunk);
        let mut found_high_bit = false;
        let mut i: u8 = 0;
        while i < 4
            invariant
                i <= 4,
                first == chunk_bits(chunk),
                found_high_bit == has_true(first.take(i as int)),
                history@ == from_first_true(first.take(i as int)),
            decreases 4 - i,
        {
            let bit = chunk_bit(chunk, i);
            proof {
                let s0 = first.take(i as int);
                let s1 = first.take(i + 1);
                assert(s1 =~= s0.push(bit));
                lemma_from_first_true_push(s0, bit);
                if !has_true(s0) {
                    lemma_from_first_true_none(s0);
                }
                if has_true(s1) && !bit {
                    let j = choose|j: int| 0 <= j < s1.len() && #[trigger] s1[j];
                    assert(s0[j]);
                }
                if has_true(s0) {
                    let j = choose|j: int| 0 <= j < s0.len() && #[trigger] s0[j];
                    assert(s1[j]);
                }
                if bit {
                    assert(s1[i as int]);
                }
            }
            if bit {
                found_high_bit = true;
            }
            if found_high_bit {
                history.push(bit);
            }
            i = i + 1;
        }
        assert(first.take(4) =~= first);
        let ghost head = history@;
        let mut j: usize = 1;
        while j < n
            invariant
                n == name@.len(),
                name_is_readable(name@),
                1 <= j <= n,
                head == from_first_true(chunk_bits(char_chunk(name@[0]))),
                history@ == head + chars_bits(name@.subrange(1, j as int)),
            decreases n - j,
        {
            let c = name.get_char(j);
            let chunk = digit_chunk(c);
            let ghost before = history@;
            let mut i: u8 = 0;
            while i < 4
                invariant
                    i <= 4,
                    history@ == before + chunk_bits(chunk).take(i as int),
                decreases 4 - i,
            {
                let bit = chunk_bit(chunk, i);
                history.push(bit);
                i = i + 1;
                assert(history@ =~= before + chunk_bits(chunk).take(i as int));
            }
            assert(chunk_bits(chunk).take(4) =~= chunk_bits(chunk));
            assert(name@.subrange(1, j + 1).drop_last() =~= name@.subrange(1, j as int));
            assert(history@ =~= head + chars_bits(name@.subrange(1, j + 1)));
            j = j + 1;
        }
        assert(name@.subrange(1, n as int) =~= name@.drop_first());
        history
    }
}

} // verus!
