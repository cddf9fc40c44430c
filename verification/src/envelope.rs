//! The ASCII-hex text envelope that PNG carries inside its metadata chunk.
//!
//! Encoding renders a payload as a legacy text block: a `\n exif \n` banner,
//! an eight-character space-padded decimal length, the EXIF header and the
//! payload as lowercase hex pairs, and a closing `00\n`. Decoding strips
//! newlines, folds hex-digit pairs back into bytes, discards a prefix until
//! the EXIF header matches, cross-checks the declared length against what
//! remains, and returns the payload.

use vstd::prelude::*;
use crate::MetaError;

verus! {

/// The newline byte that frames the envelope's lines.
pub const NEWLINE: u8 = 0x0a;

/// The space byte that pads the declared-length field.
pub const SPACE: u8 = 0x20;

/// The six-byte EXIF header (`Exif\0\0`) that precedes the payload inside
/// the envelope.
pub open spec fn exif_header_seq() -> Seq<u8> {
    seq![0x45u8, 0x78u8, 0x69u8, 0x66u8, 0x00u8, 0x00u8]
}

/// The ASCII character for a single hex digit, lowercase.
pub open spec fn hex_char(v: u8) -> u8
    recommends
        v < 16,
{
    if v < 10 {
        (0x30 + v) as u8
    } else {
        (0x61 + (v - 10)) as u8
    }
}

/// The two lowercase hex characters that render one byte.
pub open spec fn hex_pair(b: u8) -> Seq<u8> {
    seq![hex_char(b / 16), hex_char(b % 16)]
}

/// A byte sequence rendered as consecutive lowercase hex pairs.
pub open spec fn hex_seq(s: Seq<u8>) -> Seq<u8>
    decreases s.len(),
{
    if s.len() == 0 {
        Seq::empty()
    } else {
        hex_pair(s.first()) + hex_seq(s.drop_first())
    }
}

/// Hex rendering of a concatenation is the concatenation of the renderings.
pub proof fn lemma_hex_seq_add(a: Seq<u8>, b: Seq<u8>)
    ensures
        hex_seq(a + b) == hex_seq(a) + hex_seq(b),
    decreases a.len(),
{
    if a.len() == 0 {
        assert(a + b =~= b);
        assert(hex_seq(a) + hex_seq(b) =~= hex_seq(b));
    } else {
        assert((a + b).drop_first() =~= a.drop_first() + b);
        lemma_hex_seq_add(a.drop_first(), b);
        assert(hex_seq(a + b) =~= hex_seq(a) + hex_seq(b));
    }
}

/// The ASCII decimal digits of a number, most significant first.
pub open spec fn dec_digits(n: int) -> Seq<u8>
    recommends
        n >= 0,
    decreases n,
{
    if n < 10 {
        seq![(0x30 + if n >= 0 { n } else { 0 }) as u8]
    } else {
        dec_digits(n / 10) + seq![(0x30 + n % 10) as u8]
    }
}

/// A run of space bytes.
pub open spec fn spaces(n: int) -> Seq<u8> {
    Seq::new(if n >= 0 { n as nat } else { 0 }, |i: int| SPACE)
}

/// The eight-character declared-length field: the decimal digits of `n`,
/// left-padded with spaces.
pub open spec fn length_field(n: int) -> Seq<u8> {
    spaces(8 - dec_digits(n).len()) + dec_digits(n)
}

/// The whole text envelope around a payload: banner line, declared length
/// (header length plus payload length plus one), the EXIF header and payload
/// in hex, and the closing `00` line.
pub open spec fn envelope_encode_spec(b: Seq<u8>) -> Seq<u8> {
    seq![NEWLINE, 0x65u8, 0x78u8, 0x69u8, 0x66u8, NEWLINE] + length_field(b.len() + 7 as int) + seq![
        NEWLINE,
    ] + hex_seq(exif_header_seq()) + hex_seq(b) + seq![0x30u8, 0x30u8, NEWLINE]
}

/// A number below `10^k` prints in at most `k` digits, and always in at
/// least one.
pub proof fn lemma_dec_digits_len(n: int, k: int)
    requires
        0 <= n,
        1 <= k,
        n < pow10(k),
    ensures
        1 <= dec_digits(n).len() <= k,
    decreases k,
{
    assert(pow10(0) == 1);
    if n >= 10 {
        assert(pow10(k) == 10 * pow10(k - 1));
        if k == 1 {
            assert(pow10(1) == 10);
        } else {
            lemma_dec_digits_len(n / 10, k - 1);
        }
    }
}

/// Powers of ten.
pub open spec fn pow10(k: int) -> int
    decreases k,
{
    if k <= 0 {
        1
    } else {
        10 * pow10(k - 1)
    }
}

/// Every character of a decimal rendering is an ASCII digit.
pub proof fn lemma_dec_digits_ascii(n: int)
    requires
        0 <= n,
    ensures
        forall|i: int|
            0 <= i < dec_digits(n).len() ==> 0x30 <= #[trigger] dec_digits(n)[i] <= 0x39,
    decreases n,
{
    if n >= 10 {
        lemma_dec_digits_ascii(n / 10);
        assert forall|i: int| 0 <= i < dec_digits(n).len() implies 0x30 <= #[trigger] dec_digits(
            n,
        )[i] <= 0x39 by {
            if i < dec_digits(n / 10).len() {
                assert(dec_digits(n)[i] == dec_digits(n / 10)[i]);
            } else {
                assert(dec_digits(n)[i] == (0x30 + n % 10) as u8);
            }
        }
    }
}

/// The value of one ASCII character read as a hex digit, if it is one.
/// Both lowercase and uppercase digits are accepted.
pub open spec fn hex_val(c: u8) -> Option<u8> {
    if 0x30 <= c <= 0x39 {
        Some((c - 0x30) as u8)
    } else if 0x61 <= c <= 0x66 {
        Some((c - 0x61 + 10) as u8)
    } else if 0x41 <= c <= 0x46 {
        Some((c - 0x41 + 10) as u8)
    } else {
        None
    }
}

/// The byte that two envelope characters decode to: the pair is trimmed of
/// spaces and what remains is read as a hex number, so a lone digit counts
/// as its own value and anything else is dropped.
pub open spec fn pair_val(c1: u8, c2: u8) -> Option<u8> {
    if c1 == SPACE && c2 == SPACE {
        None
    } else if c1 == SPACE {
        hex_val(c2)
    } else if c2 == SPACE {
        hex_val(c1)
    } else {
        match (hex_val(c1), hex_val(c2)) {
            (Some(hi), Some(lo)) => Some((hi * 16 + lo) as u8),
            _ => None,
        }
    }
}

/// Fold consecutive character pairs back into bytes, dropping pairs that do
/// not read as hex and a trailing unpaired character.
pub open spec fn pair_bytes(s: Seq<u8>) -> Seq<u8>
    decreases s.len(),
{
    if s.len() < 2 {
        Seq::empty()
    } else {
        match pair_val(s[0], s[1]) {
            Some(b) => seq![b] + pair_bytes(s.skip(2)),
            None => pair_bytes(s.skip(2)),
        }
    }
}

/// The envelope's characters with every newline removed.
pub open spec fn strip_newlines(s: Seq<u8>) -> Seq<u8> {
    s.filter(|c: u8| c != NEWLINE)
}

/// The position of the first EXIF header occurrence in a decoded byte
/// sequence.
pub open spec fn find_header(s: Seq<u8>) -> Option<int>
    decreases s.len(),
{
    if s.len() < 6 {
        None
    } else if s.subrange(0, 6) == exif_header_seq() {
        Some(0int)
    } else {
        match find_header(s.skip(1)) {
            Some(k) => Some(k + 1),
            None => None,
        }
    }
}

/// One byte of the declared-length cross-check, holding two decimal digits
/// as its hex nibbles.
pub open spec fn bcd_byte(v: int) -> u8
    recommends
        0 <= v < 100,
{
    ((v / 10) * 16 + v % 10) as u8
}

/// A number rendered as bytes of digit pairs, two decimal digits per byte,
/// least significant pair last.
pub open spec fn bcd_of(n: int) -> Seq<u8>
    recommends
        n >= 0,
    decreases n,
{
    if n < 100 {
        seq![bcd_byte(if n >= 0 { n } else { 0 })]
    } else {
        bcd_of(n / 100) + seq![bcd_byte(n % 100)]
    }
}

/// The number that a sequence of digit-pair bytes declares, read in decimal
/// with two digits per byte; a byte whose nibbles are not decimal digits
/// spoils the whole reading.
pub open spec fn bcd_val(s: Seq<u8>) -> Option<int>
    decreases s.len(),
{
    if s.len() == 0 {
        Some(0int)
    } else {
        let b = s.last();
        if b / 16 <= 9 && b % 16 <= 9 {
            match bcd_val(s.drop_last()) {
                Some(v) => Some(v * 100 + (b / 16) * 10 + b % 16),
                None => None,
            }
        } else {
            None
        }
    }
}

/// The result of decoding a text envelope: fold hex pairs into bytes, find
/// the EXIF header, cross-check the declared length that precedes it against
/// what remains, and return the payload between the header and the closing
/// byte. Every inconsistency is the envelope-mismatch error.
pub open spec fn envelope_decode_spec(enc: Seq<u8>) -> Result<Seq<u8>, MetaError> {
    let bytes = pair_bytes(strip_newlines(enc));
    match find_header(bytes) {
        None => Err(MetaError::EnvelopeMismatch),
        Some(k) => if k == 0 {
            Err(MetaError::EnvelopeMismatch)
        } else {
            let m = if k < 4 {
                k
            } else {
                4int
            };
            match bcd_val(bytes.subrange(k - m, k)) {
                None => Err(MetaError::EnvelopeMismatch),
                Some(v) => if v == bytes.len() - k && bytes.len() >= k + 7 {
                    Ok(bytes.subrange(k + 6, bytes.len() - 1))
                } else {
                    Err(MetaError::EnvelopeMismatch)
                },
            }
        },
    }
}

/// A sequence without newlines is unchanged by stripping.
proof fn lemma_strip_keep_all(s: Seq<u8>)
    requires
        forall|i: int| 0 <= i < s.len() ==> s[i] != NEWLINE,
    ensures
        strip_newlines(s) == s,
    decreases s.len(),
{
    reveal(Seq::filter);
    if s.len() > 0 {
        lemma_strip_keep_all(s.drop_last());
        assert(strip_newlines(s) =~= s);
    } else {
        assert(strip_newlines(s) =~= s);
    }
}

/// Hex renderings never contain a newline.
proof fn lemma_hex_seq_no_newline(s: Seq<u8>)
    ensures
        forall|i: int| 0 <= i < hex_seq(s).len() ==> #[trigger] hex_seq(s)[i] != NEWLINE,
    decreases s.len(),
{
    if s.len() > 0 {
        lemma_hex_seq_no_newline(s.drop_first());
        assert forall|i: int| 0 <= i < hex_seq(s).len() implies #[trigger] hex_seq(s)[i]
            != NEWLINE by {
            if i >= 2 {
                assert(hex_seq(s)[i] == hex_seq(s.drop_first())[i - 2]);
            }
        }
    }
}

/// Folding pairs distributes over concatenation at an even boundary.
proof fn lemma_pair_bytes_add(a: Seq<u8>, b: Seq<u8>)
    requires
        a.len() % 2 == 0,
    ensures
        pair_bytes(a + b) == pair_bytes(a) + pair_bytes(b),
    decreases a.len(),
{
    if a.len() == 0 {
        assert(a + b =~= b);
        assert(pair_bytes(a) + pair_bytes(b) =~= pair_bytes(b));
    } else {
        assert((a + b)[0] == a[0]);
        assert((a + b)[1] == a[1]);
        assert((a + b).skip(2) =~= a.skip(2) + b);
        lemma_pair_bytes_add(a.skip(2), b);
        assert(pair_bytes(a + b) =~= pair_bytes(a) + pair_bytes(b));
    }
}

/// A lowercase hex character reads back as its digit, and is neither a space
/// nor a newline.
proof fn lemma_hex_char_val(v: u8)
    requires
        v < 16,
    ensures
        hex_val(hex_char(v)) == Some(v),
        hex_char(v) != SPACE,
        hex_char(v) != NEWLINE,
{
}

/// Folding the pairs of a hex rendering recovers the rendered bytes.
proof fn lemma_pair_bytes_hex(s: Seq<u8>)
    ensures
        pair_bytes(hex_seq(s)) == s,
    decreases s.len(),
{
    if s.len() == 0 {
    } else {
        let h = hex_seq(s);
        let first = s.first();
        lemma_hex_char_val(first / 16);
        lemma_hex_char_val(first % 16);
        assert(h[0] == hex_char(first / 16));
        assert(h[1] == hex_char(first % 16));
        assert(pair_val(h[0], h[1]) == Some(first)) by {
            assert((first / 16) * 16 + first % 16 == first);
        }
        assert(h.skip(2) =~= hex_seq(s.drop_first()));
        lemma_pair_bytes_hex(s.drop_first());
        assert(pair_bytes(h) =~= s);
    }
}

/// An even run of spaces folds to nothing.
proof fn lemma_pair_bytes_spaces(p: int)
    requires
        p >= 0,
        p % 2 == 0,
    ensures
        pair_bytes(spaces(p)) == Seq::<u8>::empty(),
    decreases p,
{
    if p >= 2 {
        assert(spaces(p)[0] == SPACE);
        assert(spaces(p)[1] == SPACE);
        assert(spaces(p).skip(2) =~= spaces(p - 2));
        lemma_pair_bytes_spaces(p - 2);
        assert(pair_bytes(spaces(p)) =~= Seq::<u8>::empty());
    }
}

/// The nibbles of a digit-pair byte are its two decimal digits.
proof fn lemma_bcd_byte_val(v: int)
    requires
        0 <= v < 100,
    ensures
        bcd_byte(v) / 16 == v / 10,
        bcd_byte(v) % 16 == v % 10,
        bcd_byte(v) / 16 <= 9,
        bcd_byte(v) % 16 <= 9,
{
}

/// Reading a number's digit-pair rendering declares the number itself.
proof fn lemma_bcd_val_of_bcd(n: int)
    requires
        n >= 0,
    ensures
        bcd_val(bcd_of(n)) == Some(n),
    decreases n,
{
    if n < 100 {
        lemma_bcd_byte_val(n);
        assert(bcd_of(n).drop_last() =~= Seq::<u8>::empty());
        assert(bcd_val(Seq::<u8>::empty()) == Some(0int));
        assert(bcd_of(n).last() == bcd_byte(n));
        assert((n / 10) * 10 + n % 10 == n);
        assert(bcd_val(bcd_of(n)) == Some(0 * 100 + (n / 10) * 10 + n % 10));
    } else {
        lemma_bcd_byte_val(n % 100);
        assert(bcd_of(n).last() == bcd_byte(n % 100));
        assert(bcd_of(n).drop_last() =~= bcd_of(n / 100));
        lemma_bcd_val_of_bcd(n / 100);
        assert((n / 100) * 100 + (n % 100 / 10) * 10 + n % 100 % 10 == n) by {
            assert(n % 100 / 10 * 10 + n % 100 % 10 == n % 100);
            assert((n / 100) * 100 + n % 100 == n);
        }
    }
}

/// A number below `10^(2k)` renders in at most `k` digit-pair bytes, and
/// always in at least one.
proof fn lemma_bcd_of_len(n: int, k: int)
    requires
        0 <= n,
        1 <= k,
        n < pow10(2 * k),
    ensures
        1 <= bcd_of(n).len() <= k,
    decreases k,
{
    assert(pow10(0) == 1);
    if n >= 100 {
        assert(pow10(2 * k) == 10 * pow10(2 * k - 1));
        assert(pow10(2 * k - 1) == 10 * pow10(2 * k - 2));
        if k == 1 {
            assert(pow10(2) == 100);
        } else {
            assert(2 * (k - 1) == 2 * k - 2);
            lemma_bcd_of_len(n / 100, k - 1);
        }
    }
}

/// Splitting off the last two decimal digits of a number of three or more
/// digits.
proof fn lemma_dec_split(n: int)
    requires
        n >= 100,
    ensures
        dec_digits(n) == dec_digits(n / 100) + seq![
            (0x30 + (n % 100) / 10) as u8,
            (0x30 + n % 10) as u8,
        ],
{
    assert(n / 10 >= 10);
    assert(n / 10 / 10 == n / 100) by (nonlinear_arith)
        requires
            n >= 100,
    ;
    assert(n / 10 % 10 == n % 100 / 10) by (nonlinear_arith)
        requires
            n >= 100,
    ;
    assert(dec_digits(n) == dec_digits(n / 10) + seq![(0x30 + n % 10) as u8]);
    assert(dec_digits(n / 10) == dec_digits(n / 10 / 10) + seq![(0x30 + n / 10 % 10) as u8]);
    assert(dec_digits(n) =~= dec_digits(n / 100) + seq![
        (0x30 + (n % 100) / 10) as u8,
        (0x30 + n % 10) as u8,
    ]);
}

/// Folding the pairs of the padded decimal field yields the digit-pair
/// rendering of the declared number.
#[verifier::rlimit(50)]
proof fn lemma_pairs_of_padded_decimal(n: int, p: int)
    requires
        n >= 0,
        p >= 0,
        (p + dec_digits(n).len()) % 2 == 0,
    ensures
        pair_bytes(spaces(p) + dec_digits(n)) == bcd_of(n),
    decreases n,
{
    lemma_dec_digits_ascii(n);
    if n < 10 {
        assert(dec_digits(n).len() == 1);
        assert(p % 2 == 1);
        let tail = seq![SPACE, (0x30 + n) as u8];
        assert(spaces(p) + dec_digits(n) =~= spaces(p - 1) + tail);
        lemma_pair_bytes_add(spaces(p - 1), tail);
        lemma_pair_bytes_spaces(p - 1);
        assert(pair_val(tail[0], tail[1]) == Some(n as u8));
        assert(pair_bytes(tail.skip(2)) =~= Seq::<u8>::empty());
        assert(pair_bytes(tail) =~= seq![n as u8]);
        assert(bcd_of(n) =~= seq![n as u8]);
        assert(pair_bytes(spaces(p) + dec_digits(n)) =~= bcd_of(n));
    } else if n < 100 {
        assert(dec_digits(n) == dec_digits(n / 10) + seq![(0x30 + n % 10) as u8]);
        assert(dec_digits(n / 10) == seq![(0x30 + n / 10) as u8]);
        assert(dec_digits(n) =~= seq![(0x30 + n / 10) as u8, (0x30 + n % 10) as u8]);
        assert(p % 2 == 0);
        let tail = dec_digits(n);
        lemma_pair_bytes_add(spaces(p), tail);
        lemma_pair_bytes_spaces(p);
        assert(hex_val(tail[0]) == Some((n / 10) as u8));
        assert(hex_val(tail[1]) == Some((n % 10) as u8));
        assert(pair_val(tail[0], tail[1]) == Some(bcd_byte(n)));
        assert(pair_bytes(tail.skip(2)) =~= Seq::<u8>::empty());
        assert(pair_bytes(tail) =~= seq![bcd_byte(n)]);
        assert(pair_bytes(spaces(p) + dec_digits(n)) =~= bcd_of(n));
    } else {
        lemma_dec_split(n);
        let tail = seq![(0x30 + (n % 100) / 10) as u8, (0x30 + n % 10) as u8];
        let front = spaces(p) + dec_digits(n / 100);
        assert(spaces(p) + dec_digits(n) =~= front + tail);
        assert(front.len() % 2 == 0);
        lemma_pair_bytes_add(front, tail);
        lemma_pairs_of_padded_decimal(n / 100, p);
        assert(n % 100 < 100);
        assert(0x30 + (n % 100) / 10 <= 0x39);
        assert(hex_val(tail[0]) == Some(((n % 100) / 10) as u8));
        assert(n % 10 == n % 100 % 10) by (nonlinear_arith)
            requires
                n >= 0,
        ;
        assert(hex_val(tail[1]) == Some((n % 10) as u8));
        assert(pair_val(tail[0], tail[1]) == Some(bcd_byte(n % 100)));
        assert(pair_bytes(tail.skip(2)) =~= Seq::<u8>::empty());
        assert(pair_bytes(tail) =~= seq![bcd_byte(n % 100)]);
        assert(bcd_of(n) =~= bcd_of(n / 100) + seq![bcd_byte(n % 100)]);
        assert(pair_bytes(spaces(p) + dec_digits(n)) =~= bcd_of(n));
    }
}

/// Whether the EXIF header stands at a given position of a byte sequence.
pub open spec fn header_at(s: Seq<u8>, j: int) -> bool {
    0 <= j && j + 6 <= s.len() && s.subrange(j, j + 6) == exif_header_seq()
}

/// The header search returns the position of the first occurrence.
proof fn lemma_find_header_exact(s: Seq<u8>, p: int)
    requires
        header_at(s, p),
        forall|j: int| 0 <= j < p ==> !#[trigger] header_at(s, j),
    ensures
        find_header(s) == Some(p),
    decreases p,
{
    if p == 0 {
    } else {
        assert(!header_at(s, 0));
        assert(s.subrange(0int, 0int + 6) != exif_header_seq());
        assert(s.subrange(0, 6) =~= s.subrange(0int, 0int + 6));
        let t = s.skip(1);
        assert(t.subrange(p - 1, p - 1 + 6) =~= s.subrange(p, p + 6));
        assert(header_at(t, p - 1));
        assert forall|j: int| 0 <= j < p - 1 implies !#[trigger] header_at(t, j) by {
            assert(t.subrange(j, j + 6) =~= s.subrange(j + 1, j + 1 + 6));
            assert(!header_at(s, j + 1));
        }
        lemma_find_header_exact(t, p - 1);
    }
}

/// Stripping the banner and length lines leaves the four banner letters and
/// the padded length field.
/// Stripping a lone newline leaves nothing.
proof fn lemma_strip_nl()
    ensures
        strip_newlines(seq![NEWLINE]) == Seq::<u8>::empty(),
{
    reveal_with_fuel(Seq::filter, 2);
    assert(seq![NEWLINE].drop_last() =~= Seq::<u8>::empty());
    assert(strip_newlines(seq![NEWLINE]) =~= Seq::<u8>::empty());
}

/// Stripping the banner line leaves the four banner letters.
proof fn lemma_strip_banner()
    ensures
        strip_newlines(seq![NEWLINE, 0x65u8, 0x78u8, 0x69u8, 0x66u8, NEWLINE]) == seq![
            0x65u8,
            0x78u8,
            0x69u8,
            0x66u8,
        ],
{
    let pred = |c: u8| c != NEWLINE;
    let banner = seq![NEWLINE, 0x65u8, 0x78u8, 0x69u8, 0x66u8, NEWLINE];
    let exif_word = seq![0x65u8, 0x78u8, 0x69u8, 0x66u8];
    assert(banner =~= seq![NEWLINE] + exif_word + seq![NEWLINE]);
    Seq::<u8>::filter_distributes_over_add(seq![NEWLINE], exif_word, pred);
    Seq::<u8>::filter_distributes_over_add(seq![NEWLINE] + exif_word, seq![NEWLINE], pred);
    lemma_strip_nl();
    lemma_strip_keep_all(exif_word);
    assert(strip_newlines(banner) =~= exif_word);
}

/// Stripping the banner and length lines leaves the four banner letters and
/// the padded length field.
#[verifier::rlimit(60)]
proof fn lemma_strip_front(n: int)
    requires
        0 <= n < 100000000,
    ensures
        strip_newlines(
            seq![NEWLINE, 0x65u8, 0x78u8, 0x69u8, 0x66u8, NEWLINE] + length_field(n) + seq![
                NEWLINE,
            ],
        ) == seq![0x65u8, 0x78u8, 0x69u8, 0x66u8] + length_field(n),
{
    let pred = |c: u8| c != NEWLINE;
    let banner = seq![NEWLINE, 0x65u8, 0x78u8, 0x69u8, 0x66u8, NEWLINE];
    let field = length_field(n);
    let exif_word = seq![0x65u8, 0x78u8, 0x69u8, 0x66u8];
    Seq::<u8>::filter_distributes_over_add(banner, field, pred);
    Seq::<u8>::filter_distributes_over_add(banner + field, seq![NEWLINE], pred);
    lemma_strip_banner();
    lemma_strip_nl();
    lemma_dec_digits_ascii(n);
    assert(forall|i: int| 0 <= i < field.len() ==> #[trigger] field[i] != NEWLINE);
    lemma_strip_keep_all(field);
    assert(strip_newlines(banner + field + seq![NEWLINE]) =~= exif_word + field);
}

/// Stripping the hex lines and the closing line leaves the hex characters
/// and the two closing zero characters.
#[verifier::rlimit(60)]
proof fn lemma_strip_back(b: Seq<u8>)
    ensures
        strip_newlines(
            hex_seq(exif_header_seq()) + hex_seq(b) + seq![0x30u8, 0x30u8, NEWLINE],
        ) == hex_seq(exif_header_seq()) + hex_seq(b) + seq![0x30u8, 0x30u8],
{
    let pred = |c: u8| c != NEWLINE;
    let hexh = hex_seq(exif_header_seq());
    let hexb = hex_seq(b);
    let closing = seq![0x30u8, 0x30u8, NEWLINE];
    Seq::<u8>::filter_distributes_over_add(hexh, hexb, pred);
    Seq::<u8>::filter_distributes_over_add(hexh + hexb, closing, pred);
    lemma_hex_seq_no_newline(exif_header_seq());
    lemma_strip_keep_all(hexh);
    lemma_hex_seq_no_newline(b);
    lemma_strip_keep_all(hexb);
    assert(closing =~= seq![0x30u8, 0x30u8] + seq![NEWLINE]);
    Seq::<u8>::filter_distributes_over_add(seq![0x30u8, 0x30u8], seq![NEWLINE], pred);
    assert(strip_newlines(seq![NEWLINE]) =~= Seq::<u8>::empty()) by {
        reveal_with_fuel(Seq::filter, 2);
        assert(seq![NEWLINE].drop_last() =~= Seq::<u8>::empty());
    }
    lemma_strip_keep_all(seq![0x30u8, 0x30u8]);
    assert(strip_newlines(closing) =~= seq![0x30u8, 0x30u8]);
    assert(strip_newlines(hexh + hexb + closing) =~= hexh + hexb + seq![0x30u8, 0x30u8]);
}

/// Stripping the newlines from a freshly encoded envelope leaves the four
/// banner letters, the padded length field, the hex renderings and the two
/// closing zero characters.
#[verifier::rlimit(60)]
proof fn lemma_envelope_strip(b: Seq<u8>)
    requires
        b.len() + 7 < 100000000,
    ensures
        strip_newlines(envelope_encode_spec(b)) == seq![0x65u8, 0x78u8, 0x69u8, 0x66u8]
            + length_field(b.len() + 7 as int) + hex_seq(exif_header_seq()) + hex_seq(b) + seq![
            0x30u8,
            0x30u8,
        ],
        length_field(b.len() + 7 as int).len() == 8,
{
    let ssss = b.len() + 7 as int;
    let pred = |c: u8| c != NEWLINE;
    let banner = seq![NEWLINE, 0x65u8, 0x78u8, 0x69u8, 0x66u8, NEWLINE];
    let field = length_field(ssss);
    let exif_word = seq![0x65u8, 0x78u8, 0x69u8, 0x66u8];
    let hexh = hex_seq(exif_header_seq());
    let hexb = hex_seq(b);
    let closing = seq![0x30u8, 0x30u8, NEWLINE];
    let front = banner + field + seq![NEWLINE];
    let back = hexh + hexb + closing;
    let enc = envelope_encode_spec(b);
    assert(enc =~= front + back);
    Seq::<u8>::filter_distributes_over_add(front, back, pred);
    lemma_strip_front(ssss);
    lemma_strip_back(b);
    assert(pow10(8) == 100000000) by {
        assert(pow10(0) == 1);
        assert(pow10(1) == 10);
        assert(pow10(2) == 100);
        assert(pow10(3) == 1000);
        assert(pow10(4) == 10000);
        assert(pow10(5) == 100000);
        assert(pow10(6) == 1000000);
        assert(pow10(7) == 10000000);
    }
    lemma_dec_digits_len(ssss, 8);
    assert(strip_newlines(enc) =~= exif_word + field + hexh + hexb + seq![0x30u8, 0x30u8]);
}

/// The bytes that folding a freshly encoded envelope yields: the digit-pair
/// length prefix, the EXIF header, the payload and the closing zero byte.
#[verifier::rlimit(60)]
proof fn lemma_envelope_fold(b: Seq<u8>)
    requires
        b.len() + 7 < 100000000,
    ensures
        pair_bytes(strip_newlines(envelope_encode_spec(b))) == bcd_of(b.len() + 7 as int)
            + exif_header_seq() + b + seq![0x00u8],
{
    let ssss = b.len() + 7 as int;
    let exif_word = seq![0x65u8, 0x78u8, 0x69u8, 0x66u8];
    let field = length_field(ssss);
    let hexh = hex_seq(exif_header_seq());
    let hexb = hex_seq(b);
    let enc = envelope_encode_spec(b);
    lemma_envelope_strip(b);
    let stripped = strip_newlines(enc);
    lemma_dec_digits_ascii(ssss);
    assert(pow10(8) == 100000000) by {
        assert(pow10(0) == 1);
        assert(pow10(1) == 10);
        assert(pow10(2) == 100);
        assert(pow10(3) == 1000);
        assert(pow10(4) == 10000);
        assert(pow10(5) == 100000);
        assert(pow10(6) == 1000000);
        assert(pow10(7) == 10000000);
    }
    lemma_dec_digits_len(ssss, 8);
    let d = dec_digits(ssss).len() as int;

    // Fold the pairs part by part, nesting the concatenation to the right.
    let z = seq![0x30u8, 0x30u8];
    let s3 = hexb + z;
    let s2 = hexh + s3;
    let s1 = field + s2;
    assert(hexh.len() == 12) by {
        assert(exif_header_seq().len() == 6);
        lemma_hex_seq_len(exif_header_seq());
    }
    lemma_hex_seq_len(b);
    lemma_pair_bytes_add(exif_word, s1);
    lemma_pair_bytes_add(field, s2);
    lemma_pair_bytes_add(hexh, s3);
    lemma_pair_bytes_add(hexb, z);
    assert(stripped =~= exif_word + s1);

    assert(pair_bytes(exif_word) =~= Seq::<u8>::empty()) by {
        let tail2 = seq![0x69u8, 0x66u8];
        assert(exif_word[0] == 0x65u8 && exif_word[1] == 0x78u8);
        assert(pair_val(0x65u8, 0x78u8) is None);
        assert(tail2[0] == 0x69u8 && tail2[1] == 0x66u8);
        assert(pair_val(0x69u8, 0x66u8) is None);
        assert(exif_word.skip(2) =~= tail2);
        assert(tail2.skip(2) =~= Seq::<u8>::empty());
        assert(pair_bytes(Seq::<u8>::empty()) == Seq::<u8>::empty());
        assert(pair_bytes(tail2) == pair_bytes(tail2.skip(2)));
        assert(pair_bytes(exif_word) == pair_bytes(exif_word.skip(2)));
    }
    assert(field =~= spaces(8 - d) + dec_digits(ssss));
    lemma_pairs_of_padded_decimal(ssss, 8 - d);
    lemma_pair_bytes_hex(exif_header_seq());
    lemma_pair_bytes_hex(b);
    assert(pair_bytes(seq![0x30u8, 0x30u8]) =~= seq![0x00u8]) by {
        let z = seq![0x30u8, 0x30u8];
        assert(z[0] == 0x30u8 && z[1] == 0x30u8);
        assert(pair_val(0x30u8, 0x30u8) == Some(0x00u8));
        assert(z.skip(2) =~= Seq::<u8>::empty());
        assert(pair_bytes(Seq::<u8>::empty()) == Seq::<u8>::empty());
        assert(pair_bytes(z) == seq![0x00u8] + pair_bytes(z.skip(2)));
    }

    let prefix = bcd_of(ssss);
    let bytes = pair_bytes(stripped);
    assert(bytes == pair_bytes(exif_word + s1));
    assert(bytes =~= prefix + exif_header_seq() + b + seq![0x00u8]);
}

/// Decoding an encoded envelope recovers the payload exactly.
///
/// This is the round trip of the text envelope: for any payload that fits
/// the eight-character length field, building the envelope and then decoding
/// it yields the payload back.
#[verifier::rlimit(60)]
pub proof fn lemma_envelope_roundtrip(b: Seq<u8>)
    requires
        b.len() + 7 < 100000000,
    ensures
        envelope_decode_spec(envelope_encode_spec(b)) == Ok::<Seq<u8>, MetaError>(b),
{
    let ssss = b.len() + 7 as int;
    lemma_envelope_fold(b);
    let prefix = bcd_of(ssss);
    let bytes = pair_bytes(strip_newlines(envelope_encode_spec(b)));
    assert(bytes == prefix + exif_header_seq() + b + seq![0x00u8]);

    // The header is found exactly where the declared-length prefix ends.
    assert(pow10(8) == 100000000) by {
        assert(pow10(0) == 1);
        assert(pow10(1) == 10);
        assert(pow10(2) == 100);
        assert(pow10(3) == 1000);
        assert(pow10(4) == 10000);
        assert(pow10(5) == 100000);
        assert(pow10(6) == 1000000);
        assert(pow10(7) == 10000000);
    }
    lemma_bcd_of_len(ssss, 4);
    let p = prefix.len() as int;
    assert(1 <= p <= 4);
    assert(bytes.len() == p + 6 + b.len() + 1);
    assert(bytes.subrange(p, p + 6) =~= exif_header_seq());
    assert(header_at(bytes, p));
    assert(bytes[p] == 0x45);
    assert forall|j: int| 0 <= j < p implies !#[trigger] header_at(bytes, j) by {
        let w = bytes.subrange(j, j + 6);
        assert(w[p - j] == bytes[p]);
        if w == exif_header_seq() {
            assert(exif_header_seq()[p - j] == 0x45);
            assert(false);
        }
    }
    lemma_find_header_exact(bytes, p);

    // The declared length checks out and the payload is recovered.
    assert(bytes.subrange(p - p, p) =~= prefix);
    lemma_bcd_val_of_bcd(ssss);
    assert(ssss == bytes.len() - p);
    assert(bytes.len() >= p + 7);
    assert(bytes.subrange(p + 6, bytes.len() - 1) =~= b);
}

/// Appending one character extends the stripped sequence exactly when the
/// character is not a newline.
proof fn lemma_strip_one(s: Seq<u8>, c: u8)
    ensures
        strip_newlines(s.push(c)) == if c != NEWLINE {
            strip_newlines(s).push(c)
        } else {
            strip_newlines(s)
        },
{
    reveal(Seq::filter);
    assert(s.push(c).drop_last() =~= s);
    assert(s.push(c).last() == c);
}

/// Read one ASCII character as a hex digit.
fn hex_val_exec(c: u8) -> (r: Option<u8>)
    ensures
        r == hex_val(c),
{
    if 0x30 <= c && c <= 0x39 {
        Some(c - 0x30)
    } else if 0x61 <= c && c <= 0x66 {
        Some(c - 0x61 + 10)
    } else if 0x41 <= c && c <= 0x46 {
        Some(c - 0x41 + 10)
    } else {
        None
    }
}

/// Decode one trimmed character pair as a byte.
fn pair_val_exec(c1: u8, c2: u8) -> (r: Option<u8>)
    ensures
        r == pair_val(c1, c2),
{
    if c1 == SPACE && c2 == SPACE {
        None
    } else if c1 == SPACE {
        hex_val_exec(c2)
    } else if c2 == SPACE {
        hex_val_exec(c1)
    } else {
        match (hex_val_exec(c1), hex_val_exec(c2)) {
            (Some(hi), Some(lo)) => Some(hi * 16 + lo),
            _ => None,
        }
    }
}

/// Whether the EXIF header stands at position `k` of the decoded bytes.
fn header_matches(bytes: &Vec<u8>, k: usize) -> (r: bool)
    requires
        k + 6 <= bytes@.len(),
    ensures
        r == header_at(bytes@, k as int),
{
    let header: [u8; 6] = [0x45, 0x78, 0x69, 0x66, 0x00, 0x00];
    let bl: usize = bytes.len();
    let mut j: usize = 0;
    while j < 6
        invariant
            0 <= j <= 6,
            k + 6 <= bl,
            bl == bytes@.len(),
            header@ == exif_header_seq(),
            forall|t: int| 0 <= t < j ==> bytes@[k + t] == exif_header_seq()[t],
        decreases 6 - j,
    {
        if bytes[k + j] != header[j] {
            proof {
                let w = bytes@.subrange(k as int, k as int + 6);
                assert(w[j as int] == bytes@[k + j]);
                assert(w != exif_header_seq());
            }
            return false;
        }
        j += 1;
    }
    proof {
        assert(bytes@.subrange(k as int, k as int + 6) =~= exif_header_seq());
    }
    true
}

/// Recover the payload from a text envelope.
///
/// The envelope's characters are folded pairwise into bytes, the EXIF header
/// is located, the declared length that precedes it is cross-checked against
/// what remains, and the bytes between the header and the closing byte are
/// the payload. Any inconsistency yields the envelope-mismatch error.
#[verifier::loop_isolation(false)]
#[verifier::rlimit(100)]
pub fn decode_metadata_png(encoded_data: &Vec<u8>) -> (r: Result<Vec<u8>, MetaError>)
    ensures
        r is Ok <==> envelope_decode_spec(encoded_data@) is Ok,
        r is Ok ==> r->Ok_0@ == envelope_decode_spec(encoded_data@)->Ok_0,
        r is Err ==> r->Err_0 == envelope_decode_spec(encoded_data@)->Err_0,
{
    // Drop every newline.
    let n: usize = encoded_data.len();
    let mut stripped: Vec<u8> = Vec::new();
    let mut i: usize = 0;
    while i < n
        invariant
            0 <= i <= n,
            n == encoded_data@.len(),
            stripped@ == strip_newlines(encoded_data@.take(i as int)),
        decreases n - i,
    {
        let c = encoded_data[i];
        proof {
            lemma_strip_one(encoded_data@.take(i as int), encoded_data@[i as int]);
            assert(encoded_data@.take(i + 1) =~= encoded_data@.take(i as int).push(
                encoded_data@[i as int],
            ));
        }
        if c != NEWLINE {
            stripped.push(c);
        }
        i += 1;
    }
    proof {
        assert(encoded_data@.take(n as int) =~= encoded_data@);
    }

    // Fold the character pairs into bytes.
    let sn: usize = stripped.len();
    let mut bytes: Vec<u8> = Vec::new();
    let mut p: usize = 0;
    proof {
        assert(stripped@.skip(0) =~= stripped@);
        assert(Seq::<u8>::empty() + pair_bytes(stripped@) =~= pair_bytes(stripped@));
    }
    while p < sn && p + 1 < sn
        invariant
            0 <= p <= sn,
            p % 2 == 0,
            sn == stripped@.len(),
            pair_bytes(stripped@) == bytes@ + pair_bytes(stripped@.skip(p as int)),
        decreases sn - p,
    {
        let c1 = stripped[p];
        let c2 = stripped[p + 1];
        proof {
            assert(stripped@.skip(p as int)[0] == stripped@[p as int]);
            assert(stripped@.skip(p as int)[1] == stripped@[p as int + 1]);
            assert(stripped@.skip(p as int).skip(2) =~= stripped@.skip(p as int + 2));
        }
        match pair_val_exec(c1, c2) {
            Some(b) => {
                let ghost pre = bytes@;
                bytes.push(b);
                proof {
                    assert(pair_bytes(stripped@.skip(p as int)) == seq![b] + pair_bytes(
                        stripped@.skip(p as int + 2),
                    ));
                    assert(bytes@ + pair_bytes(stripped@.skip(p as int + 2)) =~= pre + pair_bytes(
                        stripped@.skip(p as int),
                    ));
                }
            },
            None => {
                proof {
                    assert(pair_bytes(stripped@.skip(p as int)) == pair_bytes(
                        stripped@.skip(p as int + 2),
                    ));
                }
            },
        }
        p += 2;
    }
    proof {
        assert(stripped@.skip(p as int).len() < 2);
        assert(pair_bytes(stripped@.skip(p as int)) == Seq::<u8>::empty());
        assert(bytes@ + Seq::<u8>::empty() =~= bytes@);
        assert(bytes@ == pair_bytes(strip_newlines(encoded_data@)));
    }

    // Search for the EXIF header.
    let bn: usize = bytes.len();
    let mut k: usize = 0;
    let mut found: bool = false;
    proof {
        assert(bytes@.skip(0) =~= bytes@);
    }
    while !found && bn >= 6 && k <= bn - 6
        invariant
            0 <= k,
            bn == bytes@.len(),
            found ==> k + 6 <= bn && header_at(bytes@, k as int) && find_header(bytes@) == Some(
                k as int,
            ),
            !found ==> k <= bn,
            !found ==> match find_header(bytes@.skip(k as int)) {
                Some(q) => find_header(bytes@) == Some(q + k as int),
                None => find_header(bytes@) is None,
            },
        decreases bn - k, (if found { 0int } else { 1int }),
    {
        if header_matches(&bytes, k) {
            proof {
                let t = bytes@.skip(k as int);
                assert(t.subrange(0, 6) =~= bytes@.subrange(k as int, k as int + 6));
                assert(find_header(t) == Some(0int));
            }
            found = true;
        } else {
            proof {
                let t = bytes@.skip(k as int);
                assert(t.subrange(0, 6) =~= bytes@.subrange(k as int, k as int + 6));
                assert(t.subrange(0, 6) != exif_header_seq());
                assert(t.skip(1) =~= bytes@.skip(k as int + 1));
            }
            k += 1;
        }
    }
    if !found {
        proof {
            assert(bytes@.skip(k as int).len() < 6);
            assert(find_header(bytes@.skip(k as int)) is None);
            assert(find_header(bytes@) is None);
        }
        return Err(MetaError::EnvelopeMismatch);
    }
    if k == 0 {
        return Err(MetaError::EnvelopeMismatch);
    }

    // Cross-check the declared length against what remains.
    let m: usize = if k < 4 {
        k
    } else {
        4
    };
    let ghost prefix = bytes@.subrange(k as int - m as int, k as int);
    let mut acc: u64 = 0;
    let mut q: usize = 0;
    while q < m
        invariant
            0 <= q <= m,
            m <= 4,
            m <= k,
            k + 6 <= bn,
            bn == bytes@.len(),
            prefix == bytes@.subrange(k as int - m as int, k as int),
            acc < pow10(2 * q as int),
            bcd_val(prefix.take(q as int)) == Some(acc as int),
        decreases m - q,
    {
        proof {
            assert(pow10(0) == 1);
            assert(pow10(1) == 10);
            assert(pow10(2) == 100);
            assert(pow10(3) == 1000);
            assert(pow10(4) == 10000);
            assert(pow10(5) == 100000);
            assert(pow10(6) == 1000000);
            assert(pow10(7) == 10000000);
            assert(pow10(8) == 100000000);
        }
        let b = bytes[k - m + q];
        let hi = b / 16;
        let lo = b % 16;
        if hi > 9 || lo > 9 {
            proof {
                assert(prefix.take(q as int + 1).drop_last() =~= prefix.take(q as int));
                assert(prefix.take(q as int + 1).last() == prefix[q as int]);
                assert(prefix[q as int] == bytes@[k as int - m as int + q as int]);
                assert(bcd_val(prefix.take(q as int + 1)) is None);
                lemma_bcd_val_extend_none(prefix, q as int + 1);
                assert(bcd_val(prefix) is None);
            }
            return Err(MetaError::EnvelopeMismatch);
        }
        acc = acc * 100 + (hi as u64) * 10 + lo as u64;
        q += 1;
        proof {
            assert(prefix.take(q as int).drop_last() =~= prefix.take(q as int - 1));
            assert(prefix.take(q as int).last() == prefix[q as int - 1]);
        }
    }
    proof {
        assert(prefix.take(m as int) =~= prefix);
    }

    if !(acc == (bn - k) as u64 && bn - k >= 7) {
        return Err(MetaError::EnvelopeMismatch);
    }

    // Extract the payload between the header and the closing byte.
    let mut out: Vec<u8> = Vec::new();
    let start: usize = k + 6;
    let stop: usize = bn - 1;
    let mut t: usize = start;
    while t < stop
        invariant
            start <= t <= stop,
            stop < bn,
            bn == bytes@.len(),
            out@ == bytes@.subrange(start as int, t as int),
        decreases stop - t,
    {
        out.push(bytes[t]);
        t += 1;
        assert(out@ =~= bytes@.subrange(start as int, t as int));
    }
    Ok(out)
}

/// A prefix reading fails as a whole once one byte is not a digit pair.
proof fn lemma_bcd_val_extend_none(s: Seq<u8>, q: int)
    requires
        0 < q <= s.len(),
        bcd_val(s.take(q)) is None,
    ensures
        bcd_val(s.take(s.len() as int)) is None,
        bcd_val(s) is None,
    decreases s.len() - q,
{
    if q == s.len() {
        assert(s.take(s.len() as int) =~= s);
    } else {
        assert(s.take(q + 1).drop_last() =~= s.take(q));
        lemma_bcd_val_extend_none(s, q + 1);
    }
}

/// The hex rendering is twice as long as its input.
pub proof fn lemma_hex_seq_len(s: Seq<u8>)
    ensures
        hex_seq(s).len() == 2 * s.len(),
    decreases s.len(),
{
    if s.len() > 0 {
        lemma_hex_seq_len(s.drop_first());
    }
}

/// Render one byte as its two lowercase hex characters.
pub fn encode_byte(byte: &u8) -> (r: [u8; 2])
    ensures
        r@ == hex_pair(*byte),
{
    let hi: u8 = byte / 16;
    let lo: u8 = byte % 16;
    let c0: u8 = if hi < 10 {
        0x30 + hi
    } else {
        0x61 + (hi - 10)
    };
    let c1: u8 = if lo < 10 {
        0x30 + lo
    } else {
        0x61 + (lo - 10)
    };
    let r: [u8; 2] = [c0, c1];
    assert(r@ =~= hex_pair(*byte));
    r
}

/// Append the decimal digits of `n` to a buffer.
fn push_dec_digits(out: &mut Vec<u8>, n: u32)
    ensures
        final(out)@ == old(out)@ + dec_digits(n as int),
    decreases n,
{
    if n < 10 {
        out.push(0x30 + n as u8);
        assert(out@ =~= old(out)@ + dec_digits(n as int));
    } else {
        push_dec_digits(out, n / 10);
        out.push(0x30 + (n % 10) as u8);
        assert(out@ =~= old(out)@ + dec_digits(n as int));
    }
}

/// Append the hex rendering of a byte slice to a buffer.
fn push_hex(out: &mut Vec<u8>, s: &[u8])
    ensures
        final(out)@ == old(out)@ + hex_seq(s@),
{
    let n: usize = s.len();
    for i in 0..n
        invariant
            n == s@.len(),
            out@ == old(out)@ + hex_seq(s@.take(i as int)),
    {
        let pair = encode_byte(&s[i]);
        out.push(pair[0]);
        out.push(pair[1]);
        proof {
            assert(s@.take(i + 1) =~= s@.take(i as int) + seq![s@[i as int]]);
            lemma_hex_seq_add(s@.take(i as int), seq![s@[i as int]]);
            assert(seq![s@[i as int]].drop_first() =~= Seq::<u8>::empty());
            assert(hex_seq(Seq::<u8>::empty()) =~= Seq::<u8>::empty());
            assert(seq![s@[i as int]].first() == s@[i as int]);
            assert(hex_seq(seq![s@[i as int]]) =~= hex_pair(s@[i as int]));
            assert(out@ =~= old(out)@ + hex_seq(s@.take(i + 1)));
        }
    }
    assert(s@.take(n as int) =~= s@);
}

/// Build the text envelope around a payload.
///
/// The declared-length field holds eight characters, so the payload together
/// with the EXIF header and closing byte must stay below `10^8` bytes.
pub fn encode_metadata_png(exif_vec: &Vec<u8>) -> (r: Vec<u8>)
    requires
        exif_vec@.len() + 7 < 100000000,
    ensures
        r@ == envelope_encode_spec(exif_vec@),
{
    let ssss: u32 = 6 + exif_vec.len() as u32 + 1;
    proof {
        assert(pow10(0) == 1);
        assert(pow10(1) == 10);
        assert(pow10(2) == 100);
        assert(pow10(3) == 1000);
        assert(pow10(4) == 10000);
        assert(pow10(5) == 100000);
        assert(pow10(6) == 1000000);
        assert(pow10(7) == 10000000);
        assert(pow10(8) == 100000000);
        lemma_dec_digits_len(ssss as int, 8);
    }
    let mut digits: Vec<u8> = Vec::new();
    push_dec_digits(&mut digits, ssss);

    let mut png_exif: Vec<u8> = Vec::new();
    png_exif.push(NEWLINE);
    png_exif.push(0x65);
    png_exif.push(0x78);
    png_exif.push(0x69);
    png_exif.push(0x66);
    png_exif.push(NEWLINE);

    let pad: usize = 8 - digits.len();
    let mut j: usize = 0;
    while j < pad
        invariant
            j <= pad,
            png_exif@ == seq![NEWLINE, 0x65u8, 0x78u8, 0x69u8, 0x66u8, NEWLINE] + spaces(j as int),
        decreases pad - j,
    {
        png_exif.push(SPACE);
        j += 1;
        assert(png_exif@ =~= seq![NEWLINE, 0x65u8, 0x78u8, 0x69u8, 0x66u8, NEWLINE] + spaces(
            j as int,
        ));
    }
    let mut k: usize = 0;
    let dn: usize = digits.len();
    while k < dn
        invariant
            k <= dn,
            dn == digits@.len(),
            digits@ == dec_digits(ssss as int),
            pad as int == 8 - dn,
            png_exif@ == seq![NEWLINE, 0x65u8, 0x78u8, 0x69u8, 0x66u8, NEWLINE] + spaces(
                pad as int,
            ) + digits@.take(k as int),
        decreases dn - k,
    {
        png_exif.push(digits[k]);
        k += 1;
        assert(digits@.take(k as int) =~= digits@.take(k as int - 1) + seq![digits@[k - 1]]);
        assert(png_exif@ =~= seq![NEWLINE, 0x65u8, 0x78u8, 0x69u8, 0x66u8, NEWLINE] + spaces(
            pad as int,
        ) + digits@.take(k as int));
    }
    assert(digits@.take(dn as int) =~= digits@);
    png_exif.push(NEWLINE);

    let ghost before_hex = png_exif@;
    let header: [u8; 6] = [0x45, 0x78, 0x69, 0x66, 0x00, 0x00];
    push_hex(&mut png_exif, header.as_slice());
    assert(header@ =~= exif_header_seq());
    push_hex(&mut png_exif, exif_vec.as_slice());

    png_exif.push(0x30);
    png_exif.push(0x30);
    png_exif.push(NEWLINE);

    proof {
        assert(png_exif@ =~= envelope_encode_spec(exif_vec@));
    }
    png_exif
}

} // verus!
