//! The on-disk record format.
//!
//! Each command is stored as one self-delimiting textual object, an
//! externally tagged JSON value with exactly one of the keys `Get`, `Set`
//! or `Remove`:
//!
//! ```text
//! {"Set":{"key":"…","value":"…"}}
//! {"Remove":{"key":"…"}}
//! ```
//!
//! Records are concatenated without separators. Key and value strings are
//! written as their UTF-8 bytes, with `"` and `\` escaped by a backslash
//! and control bytes written as `\u00…` escapes, so the encoding of a
//! record is a function of the command alone and the parser can report the
//! byte offset just past each record.
//!
//! [`encode_cmd`] gives the bytes of a record and [`parse_cmd`] the result
//! of parsing one record out of a byte sequence; [`lemma_parse_sound`] and
//! [`lemma_parse_complete`] state that the two are inverse.

use vstd::prelude::*;
use vstd::utf8::*;

use crate::error::KvsError;
use crate::error::Result;

verus! {

/// One command of the store: the two shapes that are persisted in the log
/// (`Set`, `Remove`) and the shape that exists only on the wire (`Get`).
#[derive(Debug, PartialEq, Eq)]
pub enum KvsCommands {
    Get { key: String },
    Remove { key: String },
    Put { key: String, value: String },
}

/// The mathematical value of a command: its fields as character sequences.
pub ghost enum CommandV {
    Get { key: Seq<char> },
    Remove { key: Seq<char> },
    Put { key: Seq<char>, value: Seq<char> },
}

impl View for KvsCommands {
    type V = CommandV;

    open spec fn view(&self) -> CommandV {
        match self {
            KvsCommands::Get { key } => CommandV::Get { key: key@ },
            KvsCommands::Remove { key } => CommandV::Remove { key: key@ },
            KvsCommands::Put { key, value } => CommandV::Put { key: key@, value: value@ },
        }
    }
}

/// A command whose fields are the UTF-8 bytes of the corresponding
/// character sequences; the shape that the byte-level parser works on.
pub ghost enum RecB {
    Get { key: Seq<u8> },
    Remove { key: Seq<u8> },
    Put { key: Seq<u8>, value: Seq<u8> },
}

/// The double-quote byte.
pub const QU: u8 = 34;

/// The backslash byte.
pub const BS: u8 = 92;

/// The bytes of `{"Set":{"key":"`.
pub open spec fn lit_set_open() -> Seq<u8> {
    seq![123u8, 34, 83, 101, 116, 34, 58, 123, 34, 107, 101, 121, 34, 58, 34]
}

/// The bytes of `{"Remove":{"key":"`.
pub open spec fn lit_remove_open() -> Seq<u8> {
    seq![123u8, 34, 82, 101, 109, 111, 118, 101, 34, 58, 123, 34, 107, 101, 121, 34, 58, 34]
}

/// The bytes of `{"Get":{"key":"`.
pub open spec fn lit_get_open() -> Seq<u8> {
    seq![123u8, 34, 71, 101, 116, 34, 58, 123, 34, 107, 101, 121, 34, 58, 34]
}

/// The bytes of `,"value":"`, following the key's closing quote.
pub open spec fn lit_value_mid() -> Seq<u8> {
    seq![44u8, 34, 118, 97, 108, 117, 101, 34, 58, 34]
}

/// The bytes of `}}`, following the final closing quote.
pub open spec fn lit_close() -> Seq<u8> {
    seq![125u8, 125]
}

/// The lower-case hexadecimal digit for a nibble.
pub open spec fn hex_digit(n: u8) -> u8
    recommends
        n < 16,
{
    if n < 10 {
        (48 + n) as u8
    } else {
        (87 + n) as u8
    }
}

/// The nibble a hexadecimal digit stands for; only the digits that
/// [`hex_digit`] produces are accepted.
pub open spec fn hex_val(b: u8) -> Option<u8> {
    if 48 <= b <= 57 {
        Some((b - 48) as u8)
    } else if 97 <= b <= 102 {
        Some((b - 87) as u8)
    } else {
        None
    }
}

/// How one byte of string content is written inside a JSON string:
/// quote and backslash get a backslash, control bytes a `\u00…` escape,
/// and every other byte stands for itself.
pub open spec fn esc_byte(b: u8) -> Seq<u8> {
    if b == QU {
        seq![BS, QU]
    } else if b == BS {
        seq![BS, BS]
    } else if b < 32 {
        seq![BS, 117u8, 48u8, 48u8, hex_digit(b / 16), hex_digit(b % 16)]
    } else {
        seq![b]
    }
}

/// The escaped form of a whole byte sequence.
pub open spec fn esc_bytes(s: Seq<u8>) -> Seq<u8>
    decreases s.len(),
{
    if s.len() == 0 {
        Seq::empty()
    } else {
        esc_byte(s[0]) + esc_bytes(s.drop_first())
    }
}

/// The byte-level record with the UTF-8 bytes of the command's fields.
pub open spec fn cmd_to_rec(c: CommandV) -> RecB {
    match c {
        CommandV::Get { key } => RecB::Get { key: encode_utf8(key) },
        CommandV::Remove { key } => RecB::Remove { key: encode_utf8(key) },
        CommandV::Put { key, value } => RecB::Put {
            key: encode_utf8(key),
            value: encode_utf8(value),
        },
    }
}

/// True when every field of the record is a valid UTF-8 byte sequence.
pub open spec fn rec_valid(r: RecB) -> bool {
    match r {
        RecB::Get { key } => valid_utf8(key),
        RecB::Remove { key } => valid_utf8(key),
        RecB::Put { key, value } => valid_utf8(key) && valid_utf8(value),
    }
}

/// The command a valid byte-level record stands for.
pub open spec fn rec_to_cmd(r: RecB) -> CommandV
    recommends
        rec_valid(r),
{
    match r {
        RecB::Get { key } => CommandV::Get { key: decode_utf8(key) },
        RecB::Remove { key } => CommandV::Remove { key: decode_utf8(key) },
        RecB::Put { key, value } => CommandV::Put {
            key: decode_utf8(key),
            value: decode_utf8(value),
        },
    }
}

/// The bytes of one record, at the byte level.
pub open spec fn enc_rec(r: RecB) -> Seq<u8> {
    match r {
        RecB::Get { key } => lit_get_open() + esc_bytes(key) + seq![QU] + lit_close(),
        RecB::Remove { key } => lit_remove_open() + esc_bytes(key) + seq![QU] + lit_close(),
        RecB::Put { key, value } => lit_set_open() + esc_bytes(key) + seq![QU] + lit_value_mid()
            + esc_bytes(value) + seq![QU] + lit_close(),
    }
}

/// The bytes of one record: what one mutation appends to the log.
pub open spec fn encode_cmd(c: CommandV) -> Seq<u8> {
    enc_rec(cmd_to_rec(c))
}

/// True when `lit` stands at position `i` of `s`.
pub open spec fn match_lit(s: Seq<u8>, i: int, lit: Seq<u8>) -> bool {
    0 <= i && i + lit.len() <= s.len() && s.subrange(i, i + lit.len()) == lit
}

/// Parses the body of a JSON string starting at `i`, up to and including
/// the closing quote. Returns the unescaped content bytes and the position
/// just past the closing quote. Only the escapes that [`esc_byte`] writes
/// are accepted, so a parsed string has exactly one spelling.
pub open spec fn parse_str(s: Seq<u8>, i: int) -> Option<(Seq<u8>, int)>
    decreases s.len() - i,
    when 0 <= i <= s.len()
{
    if i >= s.len() {
        None
    } else if s[i] == QU {
        Some((Seq::empty(), i + 1))
    } else if s[i] == BS {
        if i + 1 >= s.len() {
            None
        } else if s[i + 1] == QU {
            match parse_str(s, i + 2) {
                Some((rest, j)) => Some((seq![QU] + rest, j)),
                None => None,
            }
        } else if s[i + 1] == BS {
            match parse_str(s, i + 2) {
                Some((rest, j)) => Some((seq![BS] + rest, j)),
                None => None,
            }
        } else if s[i + 1] == 117 && i + 5 < s.len() && s[i + 2] == 48 && s[i + 3] == 48 {
            match (hex_val(s[i + 4]), hex_val(s[i + 5])) {
                (Some(h), Some(l)) => {
                    let v = (16 * h + l) as u8;
                    if v < 32 {
                        match parse_str(s, i + 6) {
                            Some((rest, j)) => Some((seq![v] + rest, j)),
                            None => None,
                        }
                    } else {
                        None
                    }
                },
                _ => None,
            }
        } else {
            None
        }
    } else if s[i] >= 32 {
        match parse_str(s, i + 1) {
            Some((rest, j)) => Some((seq![s[i]] + rest, j)),
            None => None,
        }
    } else {
        None
    }
}

/// Parses one record out of `s` starting at `i`. Returns the byte-level
/// record and the position just past it.
pub open spec fn parse_rec(s: Seq<u8>, i: int) -> Option<(RecB, int)> {
    if match_lit(s, i, lit_set_open()) {
        match parse_str(s, i + lit_set_open().len()) {
            Some((kb, j)) => if match_lit(s, j, lit_value_mid()) {
                match parse_str(s, j + lit_value_mid().len()) {
                    Some((vb, m)) => if match_lit(s, m, lit_close()) {
                        Some((RecB::Put { key: kb, value: vb }, m + lit_close().len()))
                    } else {
                        None
                    },
                    None => None,
                }
            } else {
                None
            },
            None => None,
        }
    } else if match_lit(s, i, lit_remove_open()) {
        match parse_str(s, i + lit_remove_open().len()) {
            Some((kb, j)) => if match_lit(s, j, lit_close()) {
                Some((RecB::Remove { key: kb }, j + lit_close().len()))
            } else {
                None
            },
            None => None,
        }
    } else if match_lit(s, i, lit_get_open()) {
        match parse_str(s, i + lit_get_open().len()) {
            Some((kb, j)) => if match_lit(s, j, lit_close()) {
                Some((RecB::Get { key: kb }, j + lit_close().len()))
            } else {
                None
            },
            None => None,
        }
    } else {
        None
    }
}

/// Parses one record and lifts it to a command; records whose fields are
/// not valid UTF-8 are rejected.
pub open spec fn parse_cmd(s: Seq<u8>, i: int) -> Option<(CommandV, int)> {
    match parse_rec(s, i) {
        Some((r, j)) => if rec_valid(r) {
            Some((rec_to_cmd(r), j))
        } else {
            None
        },
        None => None,
    }
}

/// Escaping distributes over concatenation.
pub proof fn lemma_esc_bytes_concat(a: Seq<u8>, b: Seq<u8>)
    ensures
        esc_bytes(a + b) == esc_bytes(a) + esc_bytes(b),
    decreases a.len(),
{
    if a.len() == 0 {
        assert(a + b =~= b);
        assert(esc_bytes(a) + esc_bytes(b) =~= esc_bytes(b));
    } else {
        lemma_esc_bytes_concat(a.drop_first(), b);
        assert((a + b).drop_first() =~= a.drop_first() + b);
        assert(esc_bytes(a) + esc_bytes(b) =~= esc_byte(a[0]) + (esc_bytes(a.drop_first())
            + esc_bytes(b)));
    }
}

/// A hexadecimal digit reads back as the nibble it was written from.
proof fn lemma_hex_val_of_digit(n: u8)
    requires
        n < 16,
    ensures
        hex_val(hex_digit(n)) == Some(n),
{
}

/// A byte that reads as a nibble is that nibble's digit.
proof fn lemma_hex_digit_of_val(b: u8)
    ensures
        hex_val(b) matches Some(h) ==> h < 16 && hex_digit(h) == b,
{
}

/// Soundness of the string parser: a parsed string body occupies exactly
/// the escaped form of its content followed by the closing quote.
pub proof fn lemma_parse_str_sound(s: Seq<u8>, i: int)
    requires
        0 <= i <= s.len(),
    ensures
        match parse_str(s, i) {
            Some((b, j)) => i < j <= s.len() && s.subrange(i, j) == esc_bytes(b) + seq![QU],
            None => true,
        },
    decreases s.len() - i,
{
    if i >= s.len() {
    } else if s[i] == QU {
        assert(s.subrange(i, i + 1) =~= esc_bytes(Seq::empty()) + seq![QU]);
    } else if s[i] == BS {
        if i + 1 >= s.len() {
        } else if s[i + 1] == QU || s[i + 1] == BS {
            let d: u8 = s[i + 1];
            lemma_parse_str_sound(s, i + 2);
            match parse_str(s, i + 2) {
                Some((rest, j)) => {
                    assert((seq![d] + rest).drop_first() =~= rest);
                    assert(esc_bytes(seq![d] + rest) == esc_byte(d) + esc_bytes(rest));
                    assert(s.subrange(i, j) =~= s.subrange(i, i + 2) + s.subrange(i + 2, j));
                    assert(s.subrange(i, i + 2) =~= seq![BS, d]);
                    assert(seq![BS, d] + (esc_bytes(rest) + seq![QU]) =~= (esc_byte(d)
                        + esc_bytes(rest)) + seq![QU]);
                },
                None => {},
            }
        } else if s[i + 1] == 117 && i + 5 < s.len() && s[i + 2] == 48 && s[i + 3] == 48 {
            match (hex_val(s[i + 4]), hex_val(s[i + 5])) {
                (Some(h), Some(l)) => {
                    let v = (16 * h + l) as u8;
                    if v < 32 {
                        lemma_hex_digit_of_val(s[i + 4]);
                        lemma_hex_digit_of_val(s[i + 5]);
                        assert(v / 16 == h && v % 16 == l) by (nonlinear_arith)
                            requires
                                h < 2,
                                l < 16,
                                v == 16 * h + l,
                        ;
                        lemma_parse_str_sound(s, i + 6);
                        match parse_str(s, i + 6) {
                            Some((rest, j)) => {
                                assert((seq![v] + rest).drop_first() =~= rest);
                                assert(esc_bytes(seq![v] + rest) == esc_byte(v) + esc_bytes(rest));
                                assert(esc_byte(v) =~= seq![
                                    BS,
                                    117u8,
                                    48u8,
                                    48u8,
                                    s[i + 4],
                                    s[i + 5],
                                ]);
                                assert(s.subrange(i, j) =~= s.subrange(i, i + 6) + s.subrange(
                                    i + 6,
                                    j,
                                ));
                                assert(s.subrange(i, i + 6) =~= seq![
                                    BS,
                                    117u8,
                                    48u8,
                                    48u8,
                                    s[i + 4],
                                    s[i + 5],
                                ]);
                                assert(s.subrange(i, i + 6) + (esc_bytes(rest) + seq![QU]) =~= (
                                esc_byte(v) + esc_bytes(rest)) + seq![QU]);
                            },
                            None => {},
                        }
                    }
                },
                _ => {},
            }
        }
    } else if s[i] >= 32 {
        lemma_parse_str_sound(s, i + 1);
        match parse_str(s, i + 1) {
            Some((rest, j)) => {
                assert((seq![s[i]] + rest).drop_first() =~= rest);
                assert(esc_bytes(seq![s[i]] + rest) == esc_byte(s[i]) + esc_bytes(rest));
                assert(s.subrange(i, j) =~= s.subrange(i, i + 1) + s.subrange(i + 1, j));
                assert(s.subrange(i, i + 1) =~= seq![s[i]]);
                assert(seq![s[i]] + (esc_bytes(rest) + seq![QU]) =~= (esc_byte(s[i]) + esc_bytes(
                    rest,
                )) + seq![QU]);
            },
            None => {},
        }
    }
}

/// Completeness of the string parser: wherever the escaped form of some
/// content followed by a closing quote stands, the parser returns exactly
/// that content and stops just past the quote.
pub proof fn lemma_parse_str_complete(s: Seq<u8>, i: int, b: Seq<u8>)
    requires
        0 <= i,
        i + esc_bytes(b).len() + 1 <= s.len(),
        s.subrange(i, i + esc_bytes(b).len() + 1) == esc_bytes(b) + seq![QU],
    ensures
        parse_str(s, i) == Some((b, i + esc_bytes(b).len() + 1)),
    decreases b.len(),
{
    let e = esc_bytes(b);
    if b.len() == 0 {
        assert(s[i] == (e + seq![QU])[0]);
        assert(b =~= Seq::<u8>::empty());
    } else {
        let b0 = b[0];
        let tail = b.drop_first();
        let k = esc_byte(b0).len();
        assert(e == esc_byte(b0) + esc_bytes(tail));
        assert(forall|m: int| 0 <= m < e.len() + 1 ==> s[i + m] == (e + seq![QU])[m]);
        assert forall|m: int| 0 <= m < k implies s[i + m] == esc_byte(b0)[m] by {
            assert(s[i + m] == (e + seq![QU])[m]);
            assert((e + seq![QU])[m] == e[m]);
            assert(e[m] == esc_byte(b0)[m]);
        }
        let te = esc_bytes(tail);
        assert forall|m: int| 0 <= m < te.len() + 1 implies s.subrange(
            i + k,
            i + k + te.len() + 1,
        )[m] == (te + seq![QU])[m] by {
            assert(s.subrange(i + k, i + k + te.len() + 1)[m] == s[i + k + m]);
            assert(s[i + k + m] == (e + seq![QU])[k + m]);
            if m < te.len() {
                assert((e + seq![QU])[k + m] == e[k + m]);
                assert(e[k + m] == te[m]);
            } else {
                assert((e + seq![QU])[k + m] == QU);
            }
        }
        assert(s.subrange(i + k, i + k + esc_bytes(tail).len() + 1) =~= esc_bytes(tail)
            + seq![QU]);
        lemma_parse_str_complete(s, i + k, tail);
        if b0 == QU || b0 == BS {
            assert(s[i] == BS && s[i + 1] == b0);
            assert(seq![b0] + tail =~= b);
        } else if b0 < 32 {
            assert(s[i] == BS && s[i + 1] == 117 && s[i + 2] == 48 && s[i + 3] == 48);
            assert(s[i + 4] == hex_digit(b0 / 16) && s[i + 5] == hex_digit(b0 % 16));
            lemma_hex_val_of_digit((b0 / 16) as u8);
            lemma_hex_val_of_digit((b0 % 16) as u8);
            assert(16 * (b0 / 16) + (b0 % 16) == b0) by (nonlinear_arith);
            assert(seq![b0] + tail =~= b);
        } else {
            assert(s[i + 0] == esc_byte(b0)[0]);
            assert(seq![b0] + tail =~= b);
        }
    }
}

/// Soundness of the record parser: a parsed record occupies exactly its
/// own encoding.
#[verifier::rlimit(100)]
pub proof fn lemma_parse_rec_sound(s: Seq<u8>, i: int)
    requires
        0 <= i <= s.len(),
    ensures
        match parse_rec(s, i) {
            Some((r, j)) => i < j <= s.len() && s.subrange(i, j) == enc_rec(r),
            None => true,
        },
{
    if match_lit(s, i, lit_set_open()) {
        let a1 = i + lit_set_open().len();
        lemma_parse_str_sound(s, a1);
        match parse_str(s, a1) {
            Some((kb, a2)) => {
                if match_lit(s, a2, lit_value_mid()) {
                    let a3 = a2 + lit_value_mid().len();
                    lemma_parse_str_sound(s, a3);
                    match parse_str(s, a3) {
                        Some((vb, a4)) => {
                            if match_lit(s, a4, lit_close()) {
                                let end = a4 + lit_close().len();
                                let r = RecB::Put { key: kb, value: vb };
                                assert(s.subrange(i, end) =~= s.subrange(i, a1) + s.subrange(
                                    a1,
                                    a2,
                                ) + s.subrange(a2, a3) + s.subrange(a3, a4) + s.subrange(a4, end));
                                assert(enc_rec(r) =~= lit_set_open() + (esc_bytes(kb) + seq![QU])
                                    + lit_value_mid() + (esc_bytes(vb) + seq![QU]) + lit_close());
                                assert(s.subrange(i, end) == enc_rec(r));
                            }
                        },
                        None => {},
                    }
                }
            },
            None => {},
        }
    } else if match_lit(s, i, lit_remove_open()) {
        let a1 = i + lit_remove_open().len();
        lemma_parse_str_sound(s, a1);
        match parse_str(s, a1) {
            Some((kb, a2)) => {
                if match_lit(s, a2, lit_close()) {
                    let end = a2 + lit_close().len();
                    let r = RecB::Remove { key: kb };
                    assert(s.subrange(i, end) =~= s.subrange(i, a1) + s.subrange(a1, a2)
                        + s.subrange(a2, end));
                    assert(enc_rec(r) =~= lit_remove_open() + (esc_bytes(kb) + seq![QU])
                        + lit_close());
                    assert(s.subrange(i, end) == enc_rec(r));
                }
            },
            None => {},
        }
    } else if match_lit(s, i, lit_get_open()) {
        let a1 = i + lit_get_open().len();
        lemma_parse_str_sound(s, a1);
        match parse_str(s, a1) {
            Some((kb, a2)) => {
                if match_lit(s, a2, lit_close()) {
                    let end = a2 + lit_close().len();
                    let r = RecB::Get { key: kb };
                    assert(s.subrange(i, end) =~= s.subrange(i, a1) + s.subrange(a1, a2)
                        + s.subrange(a2, end));
                    assert(enc_rec(r) =~= lit_get_open() + (esc_bytes(kb) + seq![QU])
                        + lit_close());
                    assert(s.subrange(i, end) == enc_rec(r));
                }
            },
            None => {},
        }
    }
}

/// A window into a byte sequence equal to `e` shows the matching window
/// of `e`.
proof fn lemma_subrange_piece(s: Seq<u8>, i: int, e: Seq<u8>, lo: int, hi: int)
    requires
        0 <= i,
        i + e.len() <= s.len(),
        s.subrange(i, i + e.len()) == e,
        0 <= lo <= hi <= e.len(),
    ensures
        s.subrange(i + lo, i + hi) == e.subrange(lo, hi),
{
    assert forall|m: int| 0 <= m < hi - lo implies s.subrange(i + lo, i + hi)[m] == e.subrange(
        lo,
        hi,
    )[m] by {
        assert(s.subrange(i + lo, i + hi)[m] == s[i + lo + m]);
        assert(s.subrange(i, i + e.len())[lo + m] == s[i + (lo + m)]);
        assert(e.subrange(lo, hi)[m] == e[lo + m]);
    }
    assert(s.subrange(i + lo, i + hi) =~= e.subrange(lo, hi));
}

/// Completeness of the record parser: wherever the encoding of a record
/// stands, the parser returns exactly that record and stops just past it.
#[verifier::rlimit(100)]
pub proof fn lemma_parse_rec_complete(s: Seq<u8>, i: int, r: RecB)
    requires
        0 <= i,
        i + enc_rec(r).len() <= s.len(),
        s.subrange(i, i + enc_rec(r).len()) == enc_rec(r),
    ensures
        parse_rec(s, i) == Some((r, i + enc_rec(r).len())),
{
    let e = enc_rec(r);
    match r {
        RecB::Put { key: kb, value: vb } => {
            let kk = esc_bytes(kb).len() as int;
            let vv = esc_bytes(vb).len() as int;
            assert(e.len() == kk + vv + 29);
            lemma_subrange_piece(s, i, e, 0, 15);
            assert(e.subrange(0, 15) =~= lit_set_open());
            assert(match_lit(s, i, lit_set_open()));
            lemma_subrange_piece(s, i, e, 15, kk + 16);
            assert(e.subrange(15, kk + 16) =~= esc_bytes(kb) + seq![QU]);
            lemma_parse_str_complete(s, i + 15, kb);
            assert(parse_str(s, i + 15) == Some((kb, i + kk + 16)));
            lemma_subrange_piece(s, i, e, kk + 16, kk + 26);
            assert(e.subrange(kk + 16, kk + 26) =~= lit_value_mid());
            assert(match_lit(s, i + kk + 16, lit_value_mid()));
            lemma_subrange_piece(s, i, e, kk + 26, kk + vv + 27);
            assert(e.subrange(kk + 26, kk + vv + 27) =~= esc_bytes(vb) + seq![QU]);
            lemma_parse_str_complete(s, i + kk + 26, vb);
            assert(parse_str(s, i + kk + 26) == Some((vb, i + kk + vv + 27)));
            lemma_subrange_piece(s, i, e, kk + vv + 27, kk + vv + 29);
            assert(e.subrange(kk + vv + 27, kk + vv + 29) =~= lit_close());
            assert(match_lit(s, i + kk + vv + 27, lit_close()));
        },
        RecB::Remove { key: kb } => {
            let kk = esc_bytes(kb).len() as int;
            assert(e.len() == kk + 21);
            assert(!match_lit(s, i, lit_set_open())) by {
                if match_lit(s, i, lit_set_open()) {
                    assert(s.subrange(i, i + 15)[2] == lit_set_open()[2]);
                    assert(s.subrange(i, i + e.len())[2] == e[2]);
                    assert(e[2] == 82);
                    assert(false);
                }
            }
            lemma_subrange_piece(s, i, e, 0, 18);
            assert(e.subrange(0, 18) =~= lit_remove_open());
            assert(match_lit(s, i, lit_remove_open()));
            lemma_subrange_piece(s, i, e, 18, kk + 19);
            assert(e.subrange(18, kk + 19) =~= esc_bytes(kb) + seq![QU]);
            lemma_parse_str_complete(s, i + 18, kb);
            assert(parse_str(s, i + 18) == Some((kb, i + kk + 19)));
            lemma_subrange_piece(s, i, e, kk + 19, kk + 21);
            assert(e.subrange(kk + 19, kk + 21) =~= lit_close());
            assert(match_lit(s, i + kk + 19, lit_close()));
        },
        RecB::Get { key: kb } => {
            let kk = esc_bytes(kb).len() as int;
            assert(e.len() == kk + 18);
            assert(!match_lit(s, i, lit_set_open())) by {
                if match_lit(s, i, lit_set_open()) {
                    assert(s.subrange(i, i + 15)[2] == lit_set_open()[2]);
                    assert(s.subrange(i, i + e.len())[2] == e[2]);
                    assert(e[2] == 71);
                    assert(false);
                }
            }
            assert(!match_lit(s, i, lit_remove_open())) by {
                if match_lit(s, i, lit_remove_open()) {
                    assert(s.subrange(i, i + 18)[2] == lit_remove_open()[2]);
                    assert(s.subrange(i, i + e.len())[2] == e[2]);
                    assert(e[2] == 71);
                    assert(false);
                }
            }
            lemma_subrange_piece(s, i, e, 0, 15);
            assert(e.subrange(0, 15) =~= lit_get_open());
            assert(match_lit(s, i, lit_get_open()));
            lemma_subrange_piece(s, i, e, 15, kk + 16);
            assert(e.subrange(15, kk + 16) =~= esc_bytes(kb) + seq![QU]);
            lemma_parse_str_complete(s, i + 15, kb);
            assert(parse_str(s, i + 15) == Some((kb, i + kk + 16)));
            lemma_subrange_piece(s, i, e, kk + 16, kk + 18);
            assert(e.subrange(kk + 16, kk + 18) =~= lit_close());
            assert(match_lit(s, i + kk + 16, lit_close()));
        },
    }
}

/// Soundness at the command level: a parsed command occupies exactly its
/// own encoding, so a successful parse certifies what the bytes are.
pub proof fn lemma_parse_sound(s: Seq<u8>, i: int)
    requires
        0 <= i <= s.len(),
    ensures
        match parse_cmd(s, i) {
            Some((c, j)) => i < j <= s.len() && s.subrange(i, j) == encode_cmd(c),
            None => true,
        },
{
    lemma_parse_rec_sound(s, i);
    match parse_rec(s, i) {
        Some((r, j)) => {
            if rec_valid(r) {
                match r {
                    RecB::Get { key } => {
                        decode_utf8_encode_utf8(key);
                    },
                    RecB::Remove { key } => {
                        decode_utf8_encode_utf8(key);
                    },
                    RecB::Put { key, value } => {
                        decode_utf8_encode_utf8(key);
                        decode_utf8_encode_utf8(value);
                    },
                }
                assert(cmd_to_rec(rec_to_cmd(r)) == r);
            }
        },
        None => {},
    }
}

/// Completeness at the command level: wherever the encoding of a command
/// stands, the parser returns exactly that command and stops just past it.
pub proof fn lemma_parse_complete(s: Seq<u8>, i: int, c: CommandV)
    requires
        0 <= i,
        i + encode_cmd(c).len() <= s.len(),
        s.subrange(i, i + encode_cmd(c).len()) == encode_cmd(c),
    ensures
        parse_cmd(s, i) == Some((c, i + encode_cmd(c).len())),
{
    lemma_parse_rec_complete(s, i, cmd_to_rec(c));
    match c {
        CommandV::Get { key } => {
            encode_utf8_valid_utf8(key);
            encode_utf8_decode_utf8(key);
        },
        CommandV::Remove { key } => {
            encode_utf8_valid_utf8(key);
            encode_utf8_decode_utf8(key);
        },
        CommandV::Put { key, value } => {
            encode_utf8_valid_utf8(key);
            encode_utf8_valid_utf8(value);
            encode_utf8_decode_utf8(key);
            encode_utf8_decode_utf8(value);
        },
    }
    assert(rec_valid(cmd_to_rec(c)));
    assert(rec_to_cmd(cmd_to_rec(c)) == c);
}

/// The lower-case hexadecimal digit for a nibble, executably.
fn hex_digit_ex(n: u8) -> (r: u8)
    requires
        n < 16,
    ensures
        r == hex_digit(n),
{
    if n < 10 {
        48 + n
    } else {
        87 + n
    }
}

/// The nibble a hexadecimal digit stands for, executably.
fn hex_val_ex(b: u8) -> (r: Option<u8>)
    ensures
        r == hex_val(b),
{
    if 48 <= b && b <= 57 {
        Some(b - 48)
    } else if 97 <= b && b <= 102 {
        Some(b - 87)
    } else {
        None
    }
}

/// The bytes of `{"Set":{"key":"`, as a vector.
fn lit_set_open_vec() -> (v: Vec<u8>)
    ensures
        v@ == lit_set_open(),
{
    let mut v: Vec<u8> = Vec::new();
    v.push(123);
    v.push(34);
    v.push(83);
    v.push(101);
    v.push(116);
    v.push(34);
    v.push(58);
    v.push(123);
    v.push(34);
    v.push(107);
    v.push(101);
    v.push(121);
    v.push(34);
    v.push(58);
    v.push(34);
    proof {
        assert(v@ =~= lit_set_open());
    }
    v
}

/// The bytes of `{"Remove":{"key":"`, as a vector.
fn lit_remove_open_vec() -> (v: Vec<u8>)
    ensures
        v@ == lit_remove_open(),
{
    let mut v: Vec<u8> = Vec::new();
    v.push(123);
    v.push(34);
    v.push(82);
    v.push(101);
    v.push(109);
    v.push(111);
    v.push(118);
    v.push(101);
    v.push(34);
    v.push(58);
    v.push(123);
    v.push(34);
    v.push(107);
    v.push(101);
    v.push(121);
    v.push(34);
    v.push(58);
    v.push(34);
    proof {
        assert(v@ =~= lit_remove_open());
    }
    v
}

/// The bytes of `{"Get":{"key":"`, as a vector.
fn lit_get_open_vec() -> (v: Vec<u8>)
    ensures
        v@ == lit_get_open(),
{
    let mut v: Vec<u8> = Vec::new();
    v.push(123);
    v.push(34);
    v.push(71);
    v.push(101);
    v.push(116);
    v.push(34);
    v.push(58);
    v.push(123);
    v.push(34);
    v.push(107);
    v.push(101);
    v.push(121);
    v.push(34);
    v.push(58);
    v.push(34);
    proof {
        assert(v@ =~= lit_get_open());
    }
    v
}

/// The bytes of `,"value":"`, as a vector.
fn lit_value_mid_vec() -> (v: Vec<u8>)
    ensures
        v@ == lit_value_mid(),
{
    let mut v: Vec<u8> = Vec::new();
    v.push(44);
    v.push(34);
    v.push(118);
    v.push(97);
    v.push(108);
    v.push(117);
    v.push(101);
    v.push(34);
    v.push(58);
    v.push(34);
    proof {
        assert(v@ =~= lit_value_mid());
    }
    v
}

/// Appends the escaped form of the string's UTF-8 bytes to `out`.
fn push_escaped(out: &mut Vec<u8>, s: &str)
    ensures
        final(out)@ == old(out)@ + esc_bytes(encode_utf8(s@)),
{
    let bytes: &[u8] = s.as_bytes();
    let ghost base = out@;
    let mut i: usize = 0;
    while i < bytes.len()
        invariant
            i <= bytes.len(),
            bytes@ == encode_utf8(s@),
            out@ == base + esc_bytes(bytes@.take(i as int)),
        decreases bytes.len() - i,
    {
        let ghost taken = bytes@.take(i as int);
        let b = bytes[i];
        if b == QU {
            out.push(BS);
            out.push(QU);
        } else if b == BS {
            out.push(BS);
            out.push(BS);
        } else if b < 32 {
            out.push(BS);
            out.push(117);
            out.push(48);
            out.push(48);
            out.push(hex_digit_ex(b / 16));
            out.push(hex_digit_ex(b % 16));
        } else {
            out.push(b);
        }
        proof {
            assert(bytes@.take(i + 1 as int) =~= taken + seq![b]);
            lemma_esc_bytes_concat(taken, seq![b]);
            assert(seq![b].drop_first() =~= Seq::<u8>::empty());
            assert(seq![b][0] == b);
            assert(esc_bytes(Seq::<u8>::empty()) =~= Seq::<u8>::empty());
            assert(esc_bytes(seq![b]) == esc_byte(b) + esc_bytes(seq![b].drop_first()));
            assert(esc_bytes(seq![b]) =~= esc_byte(b));
            assert(out@ =~= base + esc_bytes(bytes@.take(i + 1 as int)));
        }
        i = i + 1;
    }
    proof {
        assert(bytes@.take(i as int) =~= bytes@);
    }
}

/// The bytes of one record: the store's replacement for a streaming
/// serializer. The result is exactly [`encode_cmd`] of the command.
pub fn encode_record(cmd: &KvsCommands) -> (out: Vec<u8>)
    ensures
        out@ == encode_cmd(cmd@),
{
    let mut out: Vec<u8> = Vec::new();
    match cmd {
        KvsCommands::Put { key, value } => {
            let mut lit = lit_set_open_vec();
            out.append(&mut lit);
            push_escaped(&mut out, key.as_str());
            out.push(QU);
            let mut mid = lit_value_mid_vec();
            out.append(&mut mid);
            push_escaped(&mut out, value.as_str());
            out.push(QU);
            out.push(125);
            out.push(125);
            proof {
                assert(out@ =~= encode_cmd(cmd@));
            }
        },
        KvsCommands::Remove { key } => {
            let mut lit = lit_remove_open_vec();
            out.append(&mut lit);
            push_escaped(&mut out, key.as_str());
            out.push(QU);
            out.push(125);
            out.push(125);
            proof {
                assert(out@ =~= encode_cmd(cmd@));
            }
        },
        KvsCommands::Get { key } => {
            let mut lit = lit_get_open_vec();
            out.append(&mut lit);
            push_escaped(&mut out, key.as_str());
            out.push(QU);
            out.push(125);
            out.push(125);
            proof {
                assert(out@ =~= encode_cmd(cmd@));
            }
        },
    }
    out
}

/// Relies on `String::from_utf8` from std: it returns the string whose
/// UTF-8 encoding is the given bytes, and rejects exactly the byte
/// sequences that are not valid UTF-8.
#[verifier::external_body]
pub(crate) fn bytes_to_string(v: Vec<u8>) -> (r: Option<String>)
    ensures
        r matches Some(s) ==> encode_utf8(s@) == v@,
        r is None <==> !valid_utf8(v@),
{
    String::from_utf8(v).ok()
}

/// True when `lit` stands at position `i` of `data`.
fn has_lit(data: &Vec<u8>, i: usize, lit: &Vec<u8>) -> (b: bool)
    ensures
        b == match_lit(data@, i as int, lit@),
{
    if i > data.len() || data.len() - i < lit.len() {
        return false;
    }
    let mut j: usize = 0;
    while j < lit.len()
        invariant
            j <= lit.len(),
            i + lit.len() <= data.len(),
            forall|m: int| 0 <= m < j ==> data@[i + m] == lit@[m],
        decreases lit.len() - j,
    {
        if data[i + j] != lit[j] {
            proof {
                assert(data@.subrange(i as int, i + lit@.len())[j as int] != lit@[j as int]);
            }
            return false;
        }
        j = j + 1;
    }
    proof {
        assert(data@.subrange(i as int, i + lit@.len()) =~= lit@);
    }
    true
}

/// Parses the body of a JSON string out of `data`, executably. The result
/// agrees exactly with [`parse_str`].
fn parse_string(data: &Vec<u8>, from: usize) -> (r: Option<(Vec<u8>, usize)>)
    requires
        from <= data.len(),
    ensures
        match parse_str(data@, from as int) {
            Some((b, j)) => r matches Some(p) && p.0@ == b && p.1 == j && from < j <= data@.len(),
            None => r is None,
        },
{
    let mut out: Vec<u8> = Vec::new();
    let mut i: usize = from;
    loop
        invariant
            from <= i <= data.len(),
            parse_str(data@, from as int) == (match parse_str(data@, i as int) {
                Some((rest, j)) => Some((out@ + rest, j)),
                None => None::<(Seq<u8>, int)>,
            }),
        decreases data.len() - i,
    {
        let ghost i0 = i as int;
        let ghost out0 = out@;
        if i >= data.len() {
            return None;
        }
        let b = data[i];
        if b == QU {
            proof {
                assert(out0 + Seq::<u8>::empty() =~= out0);
            }
            return Some((out, i + 1));
        } else if b == BS {
            if data.len() - i < 2 {
                return None;
            }
            let e = data[i + 1];
            if e == QU || e == BS {
                out.push(e);
                i = i + 2;
                proof {
                    match parse_str(data@, i as int) {
                        Some((rest, j)) => {
                            assert(out0 + (seq![e] + rest) =~= out@ + rest);
                        },
                        None => {},
                    }
                }
            } else if e == 117 {
                if data.len() - i < 6 {
                    return None;
                }
                if data[i + 2] != 48 || data[i + 3] != 48 {
                    return None;
                }
                let h = match hex_val_ex(data[i + 4]) {
                    Some(h) => h,
                    None => {
                        return None;
                    },
                };
                let l = match hex_val_ex(data[i + 5]) {
                    Some(l) => l,
                    None => {
                        return None;
                    },
                };
                let v = 16 * h + l;
                if v >= 32 {
                    return None;
                }
                out.push(v);
                i = i + 6;
                proof {
                    match parse_str(data@, i as int) {
                        Some((rest, j)) => {
                            assert(out0 + (seq![v] + rest) =~= out@ + rest);
                        },
                        None => {},
                    }
                }
            } else {
                return None;
            }
        } else if b >= 32 {
            out.push(b);
            i = i + 1;
            proof {
                match parse_str(data@, i as int) {
                    Some((rest, j)) => {
                        assert(out0 + (seq![b] + rest) =~= out@ + rest);
                    },
                    None => {},
                }
            }
        } else {
            return None;
        }
    }
}

/// Parses one record out of `data` starting at `from`: the store's
/// replacement for a streaming deserializer that reports byte offsets.
/// Returns the command and the offset just past its record; bytes that
/// [`parse_cmd`] rejects give a `Serde` error.
pub fn decode_record(data: &Vec<u8>, from: usize) -> (r: Result<(KvsCommands, usize)>)
    ensures
        match parse_cmd(data@, from as int) {
            Some((c, j)) => r matches Ok(p) && p.0@ == c && p.1 == j && from < j <= data@.len(),
            None => r matches Err(e) && e == KvsError::Serde,
        },
{
    let set_open = lit_set_open_vec();
    let remove_open = lit_remove_open_vec();
    let get_open = lit_get_open_vec();
    let value_mid = lit_value_mid_vec();
    let mut close: Vec<u8> = Vec::new();
    close.push(125);
    close.push(125);
    proof {
        assert(close@ =~= lit_close());
    }
    if has_lit(data, from, &set_open) {
        proof {
            assert(data.len() == data@.len());
            assert(from + 15 <= data@.len());
        }
        let (kb, j) = match parse_string(data, from + 15) {
            Some(p) => p,
            None => {
                return Err(KvsError::Serde);
            },
        };
        if !has_lit(data, j, &value_mid) {
            return Err(KvsError::Serde);
        }
        let (vb, m) = match parse_string(data, j + 10) {
            Some(p) => p,
            None => {
                return Err(KvsError::Serde);
            },
        };
        if !has_lit(data, m, &close) {
            return Err(KvsError::Serde);
        }
        let ghost kbs = kb@;
        let ghost vbs = vb@;
        let key = match bytes_to_string(kb) {
            Some(s) => s,
            None => {
                return Err(KvsError::Serde);
            },
        };
        let value = match bytes_to_string(vb) {
            Some(s) => s,
            None => {
                return Err(KvsError::Serde);
            },
        };
        proof {
            encode_utf8_decode_utf8(key@);
            encode_utf8_decode_utf8(value@);
            assert(key@ == decode_utf8(kbs) && value@ == decode_utf8(vbs));
        }
        Ok((KvsCommands::Put { key, value }, m + 2))
    } else if has_lit(data, from, &remove_open) {
        proof {
            assert(data.len() == data@.len());
            assert(from + 18 <= data@.len());
        }
        let (kb, j) = match parse_string(data, from + 18) {
            Some(p) => p,
            None => {
                return Err(KvsError::Serde);
            },
        };
        if !has_lit(data, j, &close) {
            return Err(KvsError::Serde);
        }
        let ghost kbs = kb@;
        let key = match bytes_to_string(kb) {
            Some(s) => s,
            None => {
                return Err(KvsError::Serde);
            },
        };
        proof {
            encode_utf8_decode_utf8(key@);
            assert(key@ == decode_utf8(kbs));
        }
        Ok((KvsCommands::Remove { key }, j + 2))
    } else if has_lit(data, from, &get_open) {
        proof {
            assert(data.len() == data@.len());
            assert(from + 15 <= data@.len());
        }
        let (kb, j) = match parse_string(data, from + 15) {
            Some(p) => p,
            None => {
                return Err(KvsError::Serde);
            },
        };
        if !has_lit(data, j, &close) {
            return Err(KvsError::Serde);
        }
        let ghost kbs = kb@;
        let key = match bytes_to_string(kb) {
            Some(s) => s,
            None => {
                return Err(KvsError::Serde);
            },
        };
        proof {
            encode_utf8_decode_utf8(key@);
            assert(key@ == decode_utf8(kbs));
        }
        Ok((KvsCommands::Get { key }, j + 2))
    } else {
        Err(KvsError::Serde)
    }
}

} // verus!
