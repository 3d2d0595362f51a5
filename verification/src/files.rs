//! Segment file naming.
//!
//! A segment of generation `n` is stored in a file named `n.log`, with
//! the generation written in canonical decimal (no leading zeroes).
//! [`log_file`] builds the name, [`parse_gen_name`] reads a generation
//! back out of a name, and [`gen_list`] turns a directory listing into
//! the ascending list of generations, ignoring every other entry.

use vstd::prelude::*;
use vstd::utf8::encode_utf8;
use vstd::utf8::is_leading_byte_width_1;
use vstd::utf8::partial_valid_utf8_extend_ascii_block;
use vstd::utf8::partial_valid_utf8;

use crate::codec::bytes_to_string;

verus! {

/// The canonical decimal digits of a number, most significant first, as
/// ASCII bytes.
pub open spec fn dec_bytes(n: u64) -> Seq<u8>
    decreases n,
{
    if n < 10 {
        seq![(48 + n) as u8]
    } else {
        dec_bytes(n / 10) + seq![(48 + n % 10) as u8]
    }
}

/// The bytes of a segment's file name: the generation in decimal
/// followed by `.log`.
pub open spec fn gen_name_bytes(gen: u64) -> Seq<u8> {
    dec_bytes(gen) + seq![46u8, 108, 111, 103]
}

/// Every byte of a decimal spelling is an ASCII digit.
proof fn lemma_dec_bytes_ascii(n: u64)
    ensures
        forall|i: int| 0 <= i < dec_bytes(n).len() ==> 48 <= #[trigger] dec_bytes(n)[i] <= 57,
    decreases n,
{
    if n < 10 {
    } else {
        lemma_dec_bytes_ascii(n / 10);
        assert(forall|i: int|
            0 <= i < dec_bytes(n / 10).len() ==> dec_bytes(n)[i] == dec_bytes(n / 10)[i]);
    }
}

/// The number a sequence of ASCII digits spells, most significant first.
pub open spec fn val_digits(ds: Seq<u8>) -> int
    decreases ds.len(),
{
    if ds.len() == 0 {
        0
    } else {
        10 * val_digits(ds.drop_last()) + (ds.last() - 48)
    }
}

/// A digit sequence without a leading zero spells a positive number.
proof fn lemma_val_digits_pos(ds: Seq<u8>)
    requires
        ds.len() >= 1,
        forall|i: int| 0 <= i < ds.len() ==> 48 <= #[trigger] ds[i] <= 57,
        ds[0] > 48,
    ensures
        val_digits(ds) >= 1,
    decreases ds.len(),
{
    if ds.len() == 1 {
        assert(ds.drop_last().len() == 0);
        assert(val_digits(ds.drop_last()) == 0);
    } else {
        assert(forall|i: int| 0 <= i < ds.len() - 1 ==> ds.drop_last()[i] == ds[i]);
        lemma_val_digits_pos(ds.drop_last());
    }
}

/// A canonical digit sequence is the decimal spelling of its own value:
/// no leading zero unless the number is a single digit.
proof fn lemma_val_digits_canonical(ds: Seq<u8>)
    requires
        ds.len() >= 1,
        forall|i: int| 0 <= i < ds.len() ==> 48 <= #[trigger] ds[i] <= 57,
        ds.len() >= 2 ==> ds[0] > 48,
        val_digits(ds) <= u64::MAX,
    ensures
        dec_bytes(val_digits(ds) as u64) == ds,
    decreases ds.len(),
{
    let v = val_digits(ds);
    if ds.len() == 1 {
        assert(ds.drop_last().len() == 0);
        assert(val_digits(ds.drop_last()) == 0);
        assert(v == ds[0] - 48);
        assert(dec_bytes(v as u64) =~= ds);
    } else {
        let head = ds.drop_last();
        assert(forall|i: int| 0 <= i < ds.len() - 1 ==> head[i] == ds[i]);
        lemma_val_digits_pos(head);
        let vh = val_digits(head);
        let d = ds.last() - 48;
        assert(v == 10 * vh + d);
        assert(vh <= v) by (nonlinear_arith)
            requires
                0 <= d <= 9,
                vh >= 0,
                v == 10 * vh + d,
        ;
        assert((10 * vh + d) / 10 == vh && (10 * vh + d) % 10 == d) by (nonlinear_arith)
            requires
                0 <= d <= 9,
                vh >= 0,
        ;
        lemma_val_digits_canonical(head);
        assert(v >= 10) by (nonlinear_arith)
            requires
                vh >= 1,
                d >= 0,
                v == 10 * vh + d,
        ;
        assert(dec_bytes(v as u64) == dec_bytes((v as u64) / 10) + seq![(48 + (v as u64)
            % 10) as u8]);
        assert(dec_bytes(v as u64) =~= ds);
    }
}

/// A decimal spelling is never empty.
proof fn lemma_dec_len_pos(n: u64)
    ensures
        dec_bytes(n).len() >= 1,
    decreases n,
{
    if n < 10 {
    } else {
        lemma_dec_len_pos(n / 10);
    }
}

/// A spelling of two or more digits starts above zero.
proof fn lemma_dec_leading(n: u64)
    ensures
        dec_bytes(n).len() >= 2 ==> dec_bytes(n)[0] > 48,
    decreases n,
{
    if n < 10 {
    } else {
        lemma_dec_leading(n / 10);
        lemma_dec_len_pos(n / 10);
        assert(dec_bytes(n)[0] == dec_bytes(n / 10)[0]);
        if n / 10 < 10 {
            assert(n / 10 >= 1);
            assert(dec_bytes(n / 10)[0] == (48 + n / 10) as u8);
        } else {
            lemma_dec_len_pos(n / 100);
            assert(dec_bytes(n / 10) == dec_bytes(n / 100) + seq![(48 + (n / 10) % 10) as u8]);
            assert(dec_bytes(n / 10).len() >= 2);
        }
    }
}

/// A digit sequence spells a non-negative number.
proof fn lemma_val_nonneg(ds: Seq<u8>)
    requires
        forall|i: int| 0 <= i < ds.len() ==> 48 <= #[trigger] ds[i] <= 57,
    ensures
        val_digits(ds) >= 0,
    decreases ds.len(),
{
    if ds.len() == 0 {
    } else {
        assert(forall|i: int| 0 <= i < ds.len() - 1 ==> ds.drop_last()[i] == ds[i]);
        lemma_val_nonneg(ds.drop_last());
    }
}

/// Reading a decimal spelling back gives the number it was written from.
proof fn lemma_val_of_dec(n: u64)
    ensures
        val_digits(dec_bytes(n)) == n,
    decreases n,
{
    if n < 10 {
        assert(dec_bytes(n).drop_last().len() == 0);
        assert(val_digits(dec_bytes(n).drop_last()) == 0);
    } else {
        lemma_val_of_dec(n / 10);
        assert(dec_bytes(n).drop_last() =~= dec_bytes(n / 10));
        assert(dec_bytes(n).last() == (48 + n % 10) as u8);
    }
}

/// The value of a prefix of a digit sequence never exceeds the whole.
proof fn lemma_val_prefix(ds: Seq<u8>, i: int)
    requires
        forall|m: int| 0 <= m < ds.len() ==> 48 <= #[trigger] ds[m] <= 57,
        0 <= i <= ds.len(),
    ensures
        val_digits(ds.take(i)) <= val_digits(ds),
    decreases ds.len() - i,
{
    if i == ds.len() {
        assert(ds.take(i) =~= ds);
    } else {
        lemma_val_prefix(ds, i + 1);
        assert(ds.take(i + 1).drop_last() =~= ds.take(i));
        assert(ds.take(i + 1).last() == ds[i]);
        assert(forall|m: int| 0 <= m < i ==> ds.take(i)[m] == ds[m]);
        lemma_val_nonneg(ds.take(i));
        let v = val_digits(ds.take(i));
        let d = ds[i] - 48;
        assert(val_digits(ds.take(i + 1)) == 10 * v + d);
        assert(10 * v + d >= v) by (nonlinear_arith)
            requires
                v >= 0,
                d >= 0,
        ;
    }
}

/// The file name of a segment's generation: `gen` in decimal followed by
/// `.log`.
pub fn log_file(gen: u64) -> (r: String)
    ensures
        encode_utf8(r@) == gen_name_bytes(gen),
{
    let mut tmp: Vec<u8> = Vec::new();
    let mut x: u64 = gen;
    loop
        invariant_except_break
            dec_bytes(gen) == dec_bytes(x) + tmp@.reverse(),
        ensures
            dec_bytes(gen) == tmp@.reverse(),
        decreases x,
    {
        let ghost t0 = tmp@;
        let d: u8 = 48 + (x % 10) as u8;
        tmp.push(d);
        proof {
            assert(tmp@.reverse() =~= seq![d] + t0.reverse());
        }
        if x < 10 {
            proof {
                assert(dec_bytes(x) =~= seq![d]);
                assert(dec_bytes(gen) =~= tmp@.reverse());
            }
            break ;
        }
        let ghost x0 = x;
        x = x / 10;
        proof {
            assert(dec_bytes(x0) == dec_bytes(x0 / 10) + seq![(48 + x0 % 10) as u8]);
            assert(dec_bytes(x0) =~= dec_bytes(x) + seq![d]);
            assert(dec_bytes(x) + (seq![d] + t0.reverse()) =~= (dec_bytes(x) + seq![d])
                + t0.reverse());
        }
    }
    let mut out: Vec<u8> = Vec::new();
    let mut i: usize = tmp.len();
    while i > 0
        invariant
            i <= tmp@.len(),
            out@ == tmp@.reverse().take(tmp@.len() - i),
        decreases i,
    {
        i = i - 1;
        out.push(tmp[i]);
        proof {
            assert(tmp@.reverse()[tmp@.len() - 1 - i] == tmp@[i as int]);
            assert(out@ =~= tmp@.reverse().take(tmp@.len() - i));
        }
    }
    proof {
        assert(tmp@.reverse().take(tmp@.len() as int) =~= tmp@.reverse());
    }
    out.push(46);
    out.push(108);
    out.push(111);
    out.push(103);
    proof {
        assert(out@ =~= gen_name_bytes(gen));
        lemma_dec_bytes_ascii(gen);
        assert forall|m: int| 0 <= m < out@.len() implies is_leading_byte_width_1(
            #[trigger] out@[m],
        ) by {
            if m < dec_bytes(gen).len() {
                assert(out@[m] == dec_bytes(gen)[m]);
            }
        }
        assert(partial_valid_utf8(out@, 0)) by {
            assert(out@.subrange(0, 0) =~= Seq::<u8>::empty());
        }
        partial_valid_utf8_extend_ascii_block(out@, 0, out@.len() as int);
        assert(out@.subrange(0, out@.len() as int) =~= out@);
    }
    match bytes_to_string(out) {
        Some(s) => s,
        None => {
            proof {
                assert(false);
            }
            String::new()
        },
    }
}

/// Reads a generation out of a file name. Exactly the canonical names
/// are accepted: the result is `Some(gen)` when the name is
/// `log_file(gen)`, and `None` when it is no generation's name.
pub fn parse_gen_name(name: &str) -> (r: Option<u64>)
    ensures
        r matches Some(gen) ==> encode_utf8(name@) == gen_name_bytes(gen),
        forall|gen: u64| encode_utf8(name@) == gen_name_bytes(gen) ==> r == Some(gen),
{
    let bytes: &[u8] = name.as_bytes();
    let ghost nb = bytes@;
    let n = bytes.len();
    proof {
        assert forall|gen: u64| nb == gen_name_bytes(gen) implies nb.len() >= 5 && nb.len()
            == dec_bytes(gen).len() + 4 by {
            lemma_dec_len_pos(gen);
        }
    }
    if n < 5 {
        return None;
    }
    if bytes[n - 4] != 46 || bytes[n - 3] != 108 || bytes[n - 2] != 111 || bytes[n - 1] != 103 {
        proof {
            assert forall|gen: u64| nb == gen_name_bytes(gen) implies false by {
                let dl = dec_bytes(gen).len() as int;
                assert(nb[dl] == 46 && nb[dl + 1] == 108 && nb[dl + 2] == 111 && nb[dl + 3]
                    == 103);
            }
        }
        return None;
    }
    let k = n - 4;
    proof {
        assert forall|gen: u64| nb == gen_name_bytes(gen) implies dec_bytes(gen).len()
            == k as int && (forall|m: int|
            0 <= m < k ==> nb[m] == dec_bytes(gen)[m]) by {
            lemma_dec_len_pos(gen);
        }
    }
    if k >= 2 && bytes[0] == 48 {
        proof {
            assert forall|gen: u64| nb == gen_name_bytes(gen) implies false by {
                lemma_dec_leading(gen);
                assert(nb[0] == dec_bytes(gen)[0]);
            }
        }
        return None;
    }
    let mut acc: u64 = 0;
    let mut i: usize = 0;
    while i < k
        invariant
            i <= k,
            k == bytes@.len() - 4,
            k >= 1,
            nb == bytes@,
            nb == encode_utf8(name@),
            forall|m: int| 0 <= m < i ==> 48 <= #[trigger] bytes@[m] <= 57,
            acc as int == val_digits(bytes@.take(i as int)),
        decreases k - i,
    {
        let b = bytes[i];
        if b < 48 || b > 57 {
            proof {
                assert forall|gen: u64| nb == gen_name_bytes(gen) implies false by {
                    lemma_dec_bytes_ascii(gen);
                    assert(nb[i as int] == dec_bytes(gen)[i as int]);
                }
            }
            return None;
        }
        let d = (b - 48) as u64;
        if acc > (u64::MAX - d) / 10 {
            proof {
                assert forall|gen: u64| nb == gen_name_bytes(gen) implies false by {
                    let ds = dec_bytes(gen);
                    lemma_dec_bytes_ascii(gen);
                    assert(nb.take(k as int) =~= ds);
                    assert(bytes@.take(i as int) =~= ds.take(i as int));
                    assert(bytes@.take(i + 1 as int) =~= ds.take(i + 1 as int));
                    lemma_val_prefix(ds, i + 1 as int);
                    lemma_val_of_dec(gen);
                    assert(ds.take(i + 1 as int).drop_last() =~= ds.take(i as int));
                    assert(val_digits(ds.take(i + 1 as int)) == 10 * (acc as int) + d);
                    assert(10 * (acc as int) + d <= u64::MAX);
                    assert(acc as int <= ((u64::MAX - d) as int) / 10) by (nonlinear_arith)
                        requires
                            10 * (acc as int) + d <= u64::MAX,
                            0 <= d <= 9,
                            acc as int >= 0,
                    ;
                }
            }
            return None;
        }
        proof {
            let va = acc as int;
            assert(10 * va + d <= u64::MAX) by (nonlinear_arith)
                requires
                    0 <= d <= 9,
                    0 <= va,
                    va <= ((u64::MAX - d) as int) / 10,
            ;
            assert(bytes@.take(i + 1 as int).drop_last() =~= bytes@.take(i as int));
            assert(bytes@.take(i + 1 as int).last() == bytes@[i as int]);
        }
        acc = acc * 10 + d;
        i = i + 1;
    }
    proof {
        let ds = bytes@.take(k as int);
        lemma_val_digits_canonical(ds);
        assert(dec_bytes(acc) == ds);
        assert(bytes@ =~= ds + seq![46u8, 108, 111, 103]);
        assert(bytes@ == gen_name_bytes(acc));
        assert forall|gen: u64| nb == gen_name_bytes(gen) implies Some(acc) == Some::<u64>(
            gen,
        ) by {
            assert(nb.take(k as int) =~= dec_bytes(gen));
            lemma_val_of_dec(gen);
            assert(val_digits(ds) == gen);
        }
    }
    Some(acc)
}

/// True when one of the names is the segment file name of generation
/// `g`.
pub open spec fn from_names(names: Seq<String>, g: u64) -> bool {
    exists|mm: int|
        0 <= mm < names.len() && encode_utf8((#[trigger] names[mm])@) == gen_name_bytes(g)
}

/// True when a generation stands in the list.
pub open spec fn in_list(l: Seq<u64>, g: u64) -> bool {
    exists|i: int| 0 <= i < l.len() && #[trigger] l[i] == g
}

/// Turns a directory listing into the ascending list of generations:
/// entries that are not canonical segment file names are ignored, and
/// each generation appears once. The result holds exactly the
/// generations whose canonical file name stands among the names.
pub fn gen_list(names: &Vec<String>) -> (r: Vec<u64>)
    ensures
        forall|i: int, j: int| 0 <= i < j < r@.len() ==> r@[i] < r@[j],
        forall|i: int| 0 <= i < r@.len() ==> from_names(names@, #[trigger] r@[i]),
        forall|gen: u64| #[trigger] from_names(names@, gen) ==> in_list(r@, gen),
{
    let mut r: Vec<u64> = Vec::new();
    let mut m: usize = 0;
    while m < names.len()
        invariant
            m <= names@.len(),
            forall|i: int, j: int| 0 <= i < j < r@.len() ==> r@[i] < r@[j],
            forall|i: int| 0 <= i < r@.len() ==> from_names(names@, #[trigger] r@[i]),
            forall|gen: u64| #[trigger]
                from_names(names@.take(m as int), gen) ==> in_list(r@, gen),
        decreases names@.len() - m,
    {
        let ghost mprev = m as int;
        match parse_gen_name(names[m].as_str()) {
            None => {
                proof {
                    assert forall|gen: u64| #[trigger]
                        from_names(names@.take(mprev + 1), gen) implies in_list(r@, gen) by {
                        let mm = choose|mm: int|
                            0 <= mm < names@.take(mprev + 1).len() && encode_utf8(
                                (#[trigger] names@.take(mprev + 1)[mm])@,
                            ) == gen_name_bytes(gen);
                        assert(names@.take(mprev + 1)[mm] == names@[mm]);
                        if mm == mprev {
                            assert(encode_utf8(names@[mprev]@) == gen_name_bytes(gen));
                            assert(false);
                        } else {
                            assert(names@.take(mprev)[mm] == names@[mm]);
                            assert(from_names(names@.take(mprev), gen));
                        }
                    }
                }
            },
            Some(gen) => {
                let ghost r0 = r@;
                let mut pos: usize = 0;
                while pos < r.len() && r[pos] < gen
                    invariant
                        pos <= r@.len(),
                        r@ == r0,
                        forall|i: int, j: int| 0 <= i < j < r@.len() ==> r@[i] < r@[j],
                        forall|i: int| 0 <= i < pos ==> #[trigger] r@[i] < gen,
                    decreases r@.len() - pos,
                {
                    pos = pos + 1;
                }
                let mut is_dup: bool = false;
                if pos < r.len() {
                    if r[pos] == gen {
                        is_dup = true;
                    }
                }
                proof {
                    assert(encode_utf8(names@[mprev]@) == gen_name_bytes(gen));
                }
                if !is_dup {
                    proof {
                        assert(forall|i: int|
                            pos <= i < r0.len() ==> gen < #[trigger] r0[i]) by {
                            if pos < r0.len() {
                                assert(r0[pos as int] >= gen);
                                assert(r0[pos as int] != gen);
                                assert(forall|i: int|
                                    pos < i < r0.len() ==> r0[pos as int] < #[trigger] r0[i]);
                            }
                        }
                    }
                    r.insert(pos, gen);
                    proof {
                        let r1 = r@;
                        assert(r1 == r0.insert(pos as int, gen));
                        assert(forall|i: int| 0 <= i < pos ==> r1[i] == r0[i]);
                        assert(r1[pos as int] == gen);
                        assert(forall|i: int| pos < i < r1.len() ==> r1[i] == r0[i - 1]);
                        assert(encode_utf8(names@[m as int]@) == gen_name_bytes(gen));
                        assert forall|i: int, j: int| 0 <= i < j < r1.len() implies r1[i]
                            < r1[j] by {
                            if j < pos {
                            } else if i == pos || j == pos {
                            } else {
                            }
                        }
                        assert forall|i: int|
                            0 <= i < r1.len() implies from_names(names@, #[trigger] r1[i]) by {
                            if i == pos {
                                assert(encode_utf8(names@[m as int]@) == gen_name_bytes(r1[i]));
                            }
                        }
                        assert forall|g2: u64|
                            in_list(r0, g2) implies in_list(r1, g2) by {
                            let i = choose|i: int| 0 <= i < r0.len() && #[trigger] r0[i] == g2;
                            if i < pos {
                                assert(r1[i] == g2);
                            } else {
                                assert(r1[i + 1] == g2);
                            }
                        }
                        assert(r1[pos as int] == gen);
                        assert(in_list(r1, gen));
                    }
                }
                proof {
                    assert(in_list(r@, gen)) by {
                        if is_dup {
                            assert(exists|i: int| 0 <= i < r@.len() && #[trigger] r@[i] == gen);
                        }
                    }
                    assert forall|g2: u64| #[trigger]
                        from_names(names@.take(mprev + 1), g2) implies in_list(r@, g2) by {
                        let mm = choose|mm: int|
                            0 <= mm < names@.take(mprev + 1).len() && encode_utf8(
                                (#[trigger] names@.take(mprev + 1)[mm])@,
                            ) == gen_name_bytes(g2);
                        assert(names@.take(mprev + 1)[mm] == names@[mm]);
                        if mm == mprev {
                            assert(g2 == gen);
                        } else {
                            assert(names@.take(mprev)[mm] == names@[mm]);
                            assert(from_names(names@.take(mprev), g2));
                            assert(in_list(r0, g2));
                            if !in_list(r@, g2) {
                                assert(false);
                            }
                        }
                    }
                }
            },
        }
        m = m + 1;
    }
    proof {
        assert(names@.take(names@.len() as int) =~= names@);
    }
    r
}

} // verus!
