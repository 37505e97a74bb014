//! Persisting the Path catalogue: a fixed-width text form that writes
//! and reads back every record field for field.
//!
//! Each record is five signed numbers (a sign and ten digits each), a
//! twenty-digit label length, the label's characters, and a newline.

use vstd::prelude::*;
use crate::records::Path;

verus! {

pub open spec fn is_digit(c: char) -> bool {
    48 <= c as u32 <= 57
}

pub open spec fn digit_val(c: char) -> int {
    c as u32 - 48
}

pub open spec fn digit_char(d: int) -> char {
    if d == 0 {
        '0'
    } else if d == 1 {
        '1'
    } else if d == 2 {
        '2'
    } else if d == 3 {
        '3'
    } else if d == 4 {
        '4'
    } else if d == 5 {
        '5'
    } else if d == 6 {
        '6'
    } else if d == 7 {
        '7'
    } else if d == 8 {
        '8'
    } else {
        '9'
    }
}

/// `n` in decimal, zero-padded to exactly `width` digits (modulo
/// `10^width`).
pub open spec fn digits_fixed(n: int, width: int) -> Seq<char>
    decreases width,
{
    if width <= 0 {
        Seq::empty()
    } else {
        digits_fixed(n / 10, width - 1).push(digit_char(n % 10))
    }
}

/// Value of a digit string, most significant first.
pub open spec fn val_of(ds: Seq<char>) -> int
    decreases ds.len(),
{
    if ds.len() == 0 {
        0
    } else {
        val_of(ds.drop_last()) * 10 + digit_val(ds.last())
    }
}

pub open spec fn pow10(w: int) -> int
    decreases w,
{
    if w <= 0 {
        1
    } else {
        10 * pow10(w - 1)
    }
}

proof fn lemma_digits_fixed_props(n: int, width: int)
    requires
        n >= 0,
        width >= 0,
    ensures
        digits_fixed(n, width).len() == width,
        forall|i: int| 0 <= i < width ==> is_digit(#[trigger] digits_fixed(n, width)[i]),
        val_of(digits_fixed(n, width)) == n % pow10(width),
        pow10(width) >= 1,
    decreases width,
{
    if width > 0 {
        lemma_digits_fixed_props(n / 10, width - 1);
        let ds = digits_fixed(n, width);
        assert(ds.drop_last() =~= digits_fixed(n / 10, width - 1));
        assert(digit_val(digit_char(n % 10)) == n % 10);
        vstd::arithmetic::div_mod::lemma_breakdown(n, 10, pow10(width - 1));
        assert(n % (10 * pow10(width - 1)) == 10 * ((n / 10) % pow10(width - 1)) + n % 10);
        assert(val_of(ds) == val_of(ds.drop_last()) * 10 + digit_val(ds.last()));
        assert(val_of(ds.drop_last()) == (n / 10) % pow10(width - 1));
        assert(10 * ((n / 10) % pow10(width - 1)) == ((n / 10) % pow10(width - 1)) * 10);
    }
}

proof fn lemma_digit_char_val(c: char)
    requires
        is_digit(c),
    ensures
        digit_char(digit_val(c)) == c,
{
    if c as u32 == 48 {
        assert(c == '0');
    } else if c as u32 == 49 {
        assert(c == '1');
    } else if c as u32 == 50 {
        assert(c == '2');
    } else if c as u32 == 51 {
        assert(c == '3');
    } else if c as u32 == 52 {
        assert(c == '4');
    } else if c as u32 == 53 {
        assert(c == '5');
    } else if c as u32 == 54 {
        assert(c == '6');
    } else if c as u32 == 55 {
        assert(c == '7');
    } else if c as u32 == 56 {
        assert(c == '8');
    } else {
        assert(c == '9');
    }
}

/// A digit string of width `w` is exactly the encoding of its value.
proof fn lemma_digits_unique(ds: Seq<char>)
    requires
        forall|i: int| 0 <= i < ds.len() ==> is_digit(#[trigger] ds[i]),
    ensures
        0 <= val_of(ds) < pow10(ds.len() as int),
        digits_fixed(val_of(ds), ds.len() as int) == ds,
    decreases ds.len(),
{
    if ds.len() == 0 {
        assert(digits_fixed(0, 0) =~= ds);
    } else {
        lemma_digits_unique(ds.drop_last());
        let v = val_of(ds);
        let vh = val_of(ds.drop_last());
        let d = digit_val(ds.last());
        assert(0 <= d <= 9);
        assert(v == vh * 10 + d);
        assert(0 <= v < pow10(ds.len() - 1) * 10) by (nonlinear_arith)
            requires
                0 <= vh < pow10(ds.len() - 1),
                0 <= d <= 9,
                v == vh * 10 + d,
        ;
        assert(pow10(ds.len() as int) == 10 * pow10(ds.len() - 1));
        assert(v / 10 == vh && v % 10 == d) by (nonlinear_arith)
            requires
                v == vh * 10 + d,
                0 <= d <= 9,
                0 <= vh,
        ;
        assert(forall|i: int|
            0 <= i < ds.len() - 1 ==> is_digit(#[trigger] ds.drop_last()[i]));
        assert(digits_fixed(v, ds.len() as int) =~= digits_fixed(vh, ds.len() - 1).push(
            digit_char(d),
        ));
        lemma_digit_char_val(ds.last());
        assert(digit_char(d) == ds.last());
        assert(digits_fixed(v, ds.len() as int) =~= ds);
    }
}

/// A signed number: `+` or `-`, then ten digits.
pub open spec fn enc_i32f(v: int) -> Seq<char> {
    (if v < 0 {
        seq!['-']
    } else {
        seq!['+']
    }) + digits_fixed(
        if v < 0 {
            -v
        } else {
            v
        },
        10,
    )
}

/// One record of the catalogue.
pub open spec fn enc_path(p: Path) -> Seq<char> {
    enc_i32f(p.dist as int) + enc_i32f(p.srcdist as int) + enc_i32f(p.destdist as int) + enc_i32f(
        p.src as int,
    ) + enc_i32f(p.dest as int) + digits_fixed(p.etapp@.len() as int, 20) + p.etapp@ + seq!['\n']
}

/// The whole catalogue, record after record.
pub open spec fn enc_paths(ps: Seq<Path>) -> Seq<char>
    decreases ps.len(),
{
    if ps.len() == 0 {
        Seq::empty()
    } else {
        enc_paths(ps.drop_last()) + enc_path(ps.last())
    }
}

/// Two records that agree field for field.
pub open spec fn path_like(a: Path, b: Path) -> bool {
    a.dist == b.dist && a.srcdist == b.srcdist && a.destdist == b.destdist && a.src == b.src
        && a.dest == b.dest && a.etapp@ == b.etapp@
}

proof fn lemma_pow10_vals()
    ensures
        pow10(10) == 10_000_000_000,
        pow10(20) == 100_000_000_000_000_000_000,
{
    assert(pow10(0) == 1);
    assert(pow10(1) == 10);
    assert(pow10(2) == 100);
    assert(pow10(3) == 1000);
    assert(pow10(4) == 10000);
    assert(pow10(5) == 100000);
    assert(pow10(6) == 1000000);
    assert(pow10(7) == 10000000);
    assert(pow10(8) == 100000000);
    assert(pow10(9) == 1000000000);
    assert(pow10(10) == 10000000000);
    assert(pow10(11) == 100000000000);
    assert(pow10(12) == 1000000000000);
    assert(pow10(13) == 10000000000000);
    assert(pow10(14) == 100000000000000);
    assert(pow10(15) == 1000000000000000);
    assert(pow10(16) == 10000000000000000);
    assert(pow10(17) == 100000000000000000);
    assert(pow10(18) == 1000000000000000000);
    assert(pow10(19) == 10000000000000000000);
    assert(pow10(20) == 100000000000000000000);
}

fn digit_str(d: u64) -> (r: &'static str)
    requires
        d < 10,
    ensures
        r@ == seq![digit_char(d as int)],
{
    proof {
        reveal_strlit("0");
        reveal_strlit("1");
        reveal_strlit("2");
        reveal_strlit("3");
        reveal_strlit("4");
        reveal_strlit("5");
        reveal_strlit("6");
        reveal_strlit("7");
        reveal_strlit("8");
        reveal_strlit("9");
    }
    match d {
        0 => "0",
        1 => "1",
        2 => "2",
        3 => "3",
        4 => "4",
        5 => "5",
        6 => "6",
        7 => "7",
        8 => "8",
        _ => {
            proof {
                assert(d == 9);
            }
            "9"
        },
    }
}

/// Append `n` zero-padded to `width` digits.
fn push_fixed(out: &mut String, n: u64, width: u64)
    requires
        (n as int) < pow10(width as int),
    ensures
        final(out)@ == old(out)@ + digits_fixed(n as int, width as int),
    decreases width,
{
    if width == 0 {
        proof {
            assert(old(out)@ + digits_fixed(n as int, 0) =~= old(out)@);
        }
    } else {
        proof {
            lemma_digits_fixed_props(n as int, width as int);
            lemma_digits_fixed_props(n as int / 10, width as int - 1);
            assert(n as int / 10 < pow10(width as int - 1)) by (nonlinear_arith)
                requires
                    0 <= (n as int) < 10 * pow10(width as int - 1),
                    pow10(width as int - 1) >= 1,
            ;
        }
        push_fixed(out, n / 10, width - 1);
        out.append(digit_str(n % 10));
        proof {
            assert(final(out)@ =~= old(out)@ + digits_fixed(n as int, width as int));
        }
    }
}

/// Append a sign and ten digits.
fn push_i32f(out: &mut String, v: i32)
    ensures
        final(out)@ == old(out)@ + enc_i32f(v as int),
{
    proof {
        reveal_strlit("-");
        reveal_strlit("+");
    }
    let n: u64 = if v < 0 {
        (-(v as i64)) as u64
    } else {
        v as u64
    };
    proof {
        lemma_pow10_vals();
    }
    if v < 0 {
        out.append("-");
    } else {
        out.append("+");
    }
    push_fixed(out, n, 10);
    proof {
        assert(final(out)@ =~= old(out)@ + enc_i32f(v as int));
    }
}

/// Write the catalogue in its persistent text form.
pub fn encode_paths(paths: &Vec<Path>) -> (r: String)
    requires
        forall|i: int| 0 <= i < paths@.len() ==> (#[trigger] paths@[i]).etapp@.len() < 10_000_000_000,
    ensures
        r@ == enc_paths(paths@),
{
    let mut out = String::new();
    let mut k: usize = 0;
    while k < paths.len()
        invariant
            forall|i: int|
                0 <= i < paths@.len() ==> (#[trigger] paths@[i]).etapp@.len() < 10_000_000_000,
            k <= paths@.len(),
            out@ == enc_paths(paths@.take(k as int)),
        decreases paths@.len() - k,
    {
        let ghost pre = out@;
        let p = &paths[k];
        push_i32f(&mut out, p.dist);
        push_i32f(&mut out, p.srcdist);
        push_i32f(&mut out, p.destdist);
        push_i32f(&mut out, p.src);
        push_i32f(&mut out, p.dest);
        let label_len = p.etapp.as_str().unicode_len();
        proof {
            lemma_pow10_vals();
        }
        push_fixed(&mut out, label_len as u64, 20);
        out.append(p.etapp.as_str());
        proof {
            reveal_strlit("\n");
        }
        out.append("\n");
        proof {
            assert(out@ =~= pre + enc_path(paths@[k as int]));
            assert(paths@.take(k as int + 1).drop_last() =~= paths@.take(k as int));
            assert(paths@.take(k as int + 1).last() == paths@[k as int]);
            assert(out@ == enc_paths(paths@.take(k as int + 1)));
        }
        k = k + 1;
    }
    proof {
        assert(paths@.take(paths@.len() as int) =~= paths@);
    }
    out
}


proof fn lemma_pow10_mono(a: int, b: int)
    requires
        a <= b,
    ensures
        1 <= pow10(a) <= pow10(b),
    decreases b - a, b,
{
    if a < b {
        lemma_pow10_mono(a, b - 1);
    } else if b > 0 {
        lemma_pow10_mono(a - 1, b - 1);
    }
}

/// The next `width` characters are all digits.
pub open spec fn all_digits(s: Seq<char>, pos: int, width: int) -> bool {
    0 <= pos && pos + width <= s.len() && forall|i: int|
        0 <= i < width ==> is_digit(#[trigger] s[pos + i])
}

/// Read exactly `width` digits as a number.
fn parse_fixed(s: &str, pos: usize, width: usize) -> (r: Option<u128>)
    requires
        width <= 20,
    ensures
        match r {
            Some(n) => {
                &&& all_digits(s@, pos as int, width as int)
                &&& 0 <= n < pow10(width as int)
                &&& s@.subrange(pos as int, pos + width as int) == digits_fixed(
                    n as int,
                    width as int,
                )
            },
            None => !all_digits(s@, pos as int, width as int),
        },
{
    let n = s.unicode_len();
    if pos > n || n - pos < width {
        return None;
    }
    let mut acc: u128 = 0;
    let mut k: usize = 0;
    while k < width
        invariant
            width <= 20,
            n == s@.len(),
            pos + width <= n,
            k <= width,
            forall|i: int| 0 <= i < k ==> is_digit(#[trigger] s@[pos + i]),
            0 <= acc < pow10(k as int),
            acc as int == val_of(s@.subrange(pos as int, pos + k as int)),
        decreases width - k,
    {
        let c = s.get_char(pos + k);
        let cv = c as u32;
        if cv < 48 || cv > 57 {
            return None;
        }
        proof {
            lemma_pow10_mono(k as int + 1, 20);
            lemma_pow10_vals();
            assert(acc as int * 10 + 9 < pow10(k as int) * 10) by (nonlinear_arith)
                requires
                    (acc as int) < pow10(k as int),
                    acc >= 0,
            ;
        }
        acc = acc * 10 + ((cv - 48) as u128);
        k = k + 1;
        proof {
            let sub = s@.subrange(pos as int, pos + k as int);
            assert(sub.drop_last() =~= s@.subrange(pos as int, pos + k as int - 1));
            assert(sub.last() == s@[pos + k as int - 1]);
        }
    }
    proof {
        let sub = s@.subrange(pos as int, pos + width as int);
        assert forall|i: int| 0 <= i < width implies is_digit(#[trigger] sub[i]) by {
            assert(sub[i] == s@[pos + i]);
        }
        lemma_digits_unique(sub);
    }
    Some(acc)
}

/// An eleven-character signed number stands at `pos`.
pub open spec fn num_at(s: Seq<char>, pos: int, v: int) -> bool {
    0 <= pos && pos + 11 <= s.len() && s.subrange(pos, pos + 11) == enc_i32f(v)
}

/// Read a sign and ten digits.
fn parse_i32f(s: &str, pos: usize) -> (r: Option<i32>)
    ensures
        forall|v: int|
            -0x8000_0000 <= v < 0x8000_0000 && #[trigger] num_at(s@, pos as int, v) ==> r == Some(
                v as i32,
            ),
        r is Some ==> num_at(s@, pos as int, r->0 as int),
{
    let n = s.unicode_len();
    if pos >= n || n - pos < 11 {
        proof {
            assert forall|v: int| !num_at(s@, pos as int, v) by {}
        }
        return None;
    }
    let sign = s.get_char(pos);
    if sign != '+' && sign != '-' {
        proof {
            assert forall|v: int| !num_at(s@, pos as int, v) by {
                if num_at(s@, pos as int, v) {
                    assert(s@[pos as int] == enc_i32f(v)[0]);
                }
            }
        }
        return None;
    }
    let mag = match parse_fixed(s, pos + 1, 10) {
        Some(m) => m,
        None => {
            proof {
                assert forall|v: int| !num_at(s@, pos as int, v) by {
                    if num_at(s@, pos as int, v) {
                        let a = if v < 0 { -v } else { v };
                        lemma_digits_fixed_props(a, 10);
                        assert forall|i: int| 0 <= i < 10 implies is_digit(
                            #[trigger] s@[pos + 1 + i],
                        ) by {
                            assert(s@[pos + 1 + i] == enc_i32f(v)[1 + i]);
                            assert(enc_i32f(v)[1 + i] == digits_fixed(a, 10)[i]);
                        }
                    }
                }
            }
            return None;
        },
    };
    proof {
        lemma_pow10_vals();
    }
    let out: Option<i32> = if sign == '-' {
        if mag == 0 || mag > 0x8000_0000u128 {
            None
        } else {
            Some((-(mag as i64)) as i32)
        }
    } else {
        if mag > 0x7fff_ffffu128 {
            None
        } else {
            Some(mag as i32)
        }
    };
    proof {
        if out is Some {
            let v = out->0 as int;
            let a = if v < 0 {
                -v
            } else {
                v
            };
            assert(a == mag as int);
            assert(enc_i32f(v)[0] == sign);
            assert forall|i: int|
                0 <= i < 11 implies s@.subrange(pos as int, pos + 11)[i] == enc_i32f(v)[i] by {
                assert(s@.subrange(pos as int, pos + 11)[i] == s@[pos + i]);
                if i == 0 {
                    assert(s@[pos as int] == sign);
                } else {
                    let j = i - 1;
                    assert(s@.subrange(pos + 1, pos + 11)[j] == s@[pos + 1 + j]);
                    assert(enc_i32f(v)[1 + j] == digits_fixed(a, 10)[j]);
                }
            }
            assert(s@.subrange(pos as int, pos + 11) =~= enc_i32f(v));
            assert(num_at(s@, pos as int, v));
        }
    }
    proof {
        assert forall|v: int|
            -0x8000_0000 <= v < 0x8000_0000 && #[trigger] num_at(s@, pos as int, v) implies out
            == Some(v as i32) by {
            let a = if v < 0 { -v } else { v };
            lemma_digits_fixed_props(a, 10);
            assert(s@[pos as int] == enc_i32f(v)[0]);
            assert(s@.subrange(pos + 1, pos + 11) =~= s@.subrange(pos as int, pos + 11).subrange(
                1,
                11,
            ));
            assert(s@.subrange(pos as int, pos + 11).subrange(1, 11) =~= digits_fixed(a, 10));
            assert(s@.subrange(pos + 1, pos + 11) == digits_fixed(mag as int, 10));
            assert(val_of(digits_fixed(a, 10)) == a % pow10(10));
            lemma_digits_fixed_props(mag as int, 10);
            assert(a % pow10(10) == a);
            assert(mag as int % pow10(10) == mag as int);
            assert(mag as int == a);
            if v < 0 {
                assert(enc_i32f(v)[0] == '-');
                assert(sign == '-');
            } else {
                assert(enc_i32f(v)[0] == '+');
                assert(sign == '+');
            }
        }
    }
    out
}

/// A full record stands at `pos`.
pub open spec fn rec_at(s: Seq<char>, pos: int, p: Path) -> bool {
    &&& 0 <= pos
    &&& pos + enc_path(p).len() <= s.len()
    &&& s.subrange(pos, pos + enc_path(p).len() as int) == enc_path(p)
    &&& p.etapp@.len() < pow10(20)
}

/// Read one record.
fn parse_path(s: &str, pos: usize) -> (r: Option<(Path, usize)>)
    ensures
        match r {
            Some(rp) => pos < rp.1 <= s@.len() && rp.1 == pos + enc_path(rp.0).len() && rec_at(
                s@,
                pos as int,
                rp.0,
            ),
            None => true,
        },
        forall|p: Path|
            #[trigger] rec_at(s@, pos as int, p) ==> match r {
                Some(rp) => path_like(rp.0, p) && rp.1 == pos + enc_path(p).len(),
                None => false,
            },
{
    proof {
        lemma_pow10_vals();
        assert forall|p: Path| #[trigger] rec_at(s@, pos as int, p) implies rec_shape(
            s@,
            pos as int,
            p,
        ) by {
            lemma_rec_shape(s@, pos as int, p);
        }
    }
    let n = s.unicode_len();
    if pos >= n || n - pos < 76 {
        return None;
    }
    let dist = match parse_i32f(s, pos) {
        Some(v) => v,
        None => {
            return None;
        },
    };
    let srcdist = match parse_i32f(s, pos + 11) {
        Some(v) => v,
        None => {
            return None;
        },
    };
    let destdist = match parse_i32f(s, pos + 22) {
        Some(v) => v,
        None => {
            return None;
        },
    };
    let src = match parse_i32f(s, pos + 33) {
        Some(v) => v,
        None => {
            return None;
        },
    };
    let dest = match parse_i32f(s, pos + 44) {
        Some(v) => v,
        None => {
            return None;
        },
    };
    let llen = match parse_fixed(s, pos + 55, 20) {
        Some(m) => m,
        None => {
            return None;
        },
    };
    proof {
        assert forall|p: Path| #[trigger] rec_at(s@, pos as int, p) implies llen
            == p.etapp@.len() by {
            lemma_digits_fixed_props(p.etapp@.len() as int, 20);
            lemma_digits_fixed_props(llen as int, 20);
            assert(s@.subrange(pos + 55, pos + 75) == digits_fixed(p.etapp@.len() as int, 20));
            assert(val_of(digits_fixed(p.etapp@.len() as int, 20)) == p.etapp@.len() as int
                % pow10(20));
            assert(val_of(digits_fixed(llen as int, 20)) == llen as int % pow10(20));
            assert(p.etapp@.len() as int % pow10(20) == p.etapp@.len() as int);
            assert(llen as int % pow10(20) == llen as int);
        }
    }
    let avail: usize = n - pos - 75;
    if llen as u128 + 1 > avail as u128 {
        return None;
    }
    let ll: usize = llen as usize;
    let label = s.substring_char(pos + 75, pos + 75 + ll);
    let nl = s.get_char(pos + 75 + ll);
    if nl != '\n' {
        return None;
    }
    let p = Path {
        dist,
        srcdist,
        destdist,
        src,
        dest,
        etapp: label.to_owned(),
    };
    proof {
        lemma_digits_fixed_props(p.etapp@.len() as int, 20);
        lemma_digits_fixed_props(
            if p.dist < 0 { -p.dist as int } else { p.dist as int },
            10,
        );
        lemma_digits_fixed_props(
            if p.srcdist < 0 { -p.srcdist as int } else { p.srcdist as int },
            10,
        );
        lemma_digits_fixed_props(
            if p.destdist < 0 { -p.destdist as int } else { p.destdist as int },
            10,
        );
        lemma_digits_fixed_props(if p.src < 0 { -p.src as int } else { p.src as int }, 10);
        lemma_digits_fixed_props(if p.dest < 0 { -p.dest as int } else { p.dest as int }, 10);
        assert(p.etapp@.len() == ll);
        assert(enc_path(p).len() == 76 + ll);
        assert(rec_shape(s@, pos as int, p));
        lemma_rec_shape_rev(s@, pos as int, p);
    }
    Some((p, pos + 76 + ll))
}

/// The parts of a record, spelled out at their offsets.
pub open spec fn rec_shape(s: Seq<char>, pos: int, p: Path) -> bool {
    &&& num_at(s, pos, p.dist as int)
    &&& num_at(s, pos + 11, p.srcdist as int)
    &&& num_at(s, pos + 22, p.destdist as int)
    &&& num_at(s, pos + 33, p.src as int)
    &&& num_at(s, pos + 44, p.dest as int)
    &&& all_digits(s, pos + 55, 20)
    &&& s.subrange(pos + 55, pos + 75) == digits_fixed(p.etapp@.len() as int, 20)
    &&& pos + 76 + p.etapp@.len() <= s.len()
    &&& s.subrange(pos + 75, pos + 75 + p.etapp@.len() as int) == p.etapp@
    &&& s[pos + 75 + p.etapp@.len()] == '\n'
    &&& enc_path(p).len() == 76 + p.etapp@.len()
}

proof fn lemma_rec_shape(s: Seq<char>, pos: int, p: Path)
    requires
        rec_at(s, pos, p),
    ensures
        rec_shape(s, pos, p),
{
    let e = enc_path(p);
    lemma_digits_fixed_props(if p.dist < 0 { -p.dist as int } else { p.dist as int }, 10);
    lemma_digits_fixed_props(if p.srcdist < 0 { -p.srcdist as int } else { p.srcdist as int }, 10);
    lemma_digits_fixed_props(
        if p.destdist < 0 { -p.destdist as int } else { p.destdist as int },
        10,
    );
    lemma_digits_fixed_props(if p.src < 0 { -p.src as int } else { p.src as int }, 10);
    lemma_digits_fixed_props(if p.dest < 0 { -p.dest as int } else { p.dest as int }, 10);
    lemma_digits_fixed_props(p.etapp@.len() as int, 20);
    assert(e.len() == 76 + p.etapp@.len());
    let l = p.etapp@.len() as int;
    let c1 = enc_i32f(p.dist as int);
    let c2 = enc_i32f(p.srcdist as int);
    let c3 = enc_i32f(p.destdist as int);
    let c4 = enc_i32f(p.src as int);
    let c5 = enc_i32f(p.dest as int);
    let c6 = digits_fixed(l, 20);
    let c7 = p.etapp@;
    assert(c1.len() == 11 && c2.len() == 11 && c3.len() == 11 && c4.len() == 11 && c5.len() == 11
        && c6.len() == 20);
    assert forall|i: int| 0 <= i < e.len() implies s[pos + i] == e[i] by {
        assert(s.subrange(pos, pos + e.len() as int)[i] == s[pos + i]);
    }
    assert forall|i: int| 0 <= i < e.len() implies e[i] == (if i < 11 {
        c1[i]
    } else if i < 22 {
        c2[i - 11]
    } else if i < 33 {
        c3[i - 22]
    } else if i < 44 {
        c4[i - 33]
    } else if i < 55 {
        c5[i - 44]
    } else if i < 75 {
        c6[i - 55]
    } else if i < 75 + l {
        c7[i - 75]
    } else {
        '\n'
    }) by {
        assert(e == c1 + c2 + c3 + c4 + c5 + c6 + c7 + seq!['\n']);
        assert(seq!['\n'][0] == '\n');
    }
    assert forall|i: int| 0 <= i < 11 implies s.subrange(pos, pos + 11)[i] == c1[i] by {
        assert(s.subrange(pos, pos + 11)[i] == s[pos + i]);
        assert(s[pos + i] == e[i]);
    }
    assert(s.subrange(pos, pos + 11) =~= c1);
    assert forall|i: int| 0 <= i < 11 implies s.subrange(pos + 11, pos + 22)[i] == c2[i] by {
        let j = 11 + i;
        assert(s.subrange(pos + 11, pos + 22)[i] == s[pos + 11 + i]);
        assert(s[pos + j] == e[j]);
        assert(e[j] == c2[j - 11]);
    }
    assert(s.subrange(pos + 11, pos + 22) =~= c2);
    assert forall|i: int| 0 <= i < 11 implies s.subrange(pos + 22, pos + 33)[i] == c3[i] by {
        let j = 22 + i;
        assert(s.subrange(pos + 22, pos + 33)[i] == s[pos + 22 + i]);
        assert(s[pos + j] == e[j]);
        assert(e[j] == c3[j - 22]);
    }
    assert(s.subrange(pos + 22, pos + 33) =~= c3);
    assert forall|i: int| 0 <= i < 11 implies s.subrange(pos + 33, pos + 44)[i] == c4[i] by {
        let j = 33 + i;
        assert(s.subrange(pos + 33, pos + 44)[i] == s[pos + 33 + i]);
        assert(s[pos + j] == e[j]);
        assert(e[j] == c4[j - 33]);
    }
    assert(s.subrange(pos + 33, pos + 44) =~= c4);
    assert forall|i: int| 0 <= i < 11 implies s.subrange(pos + 44, pos + 55)[i] == c5[i] by {
        let j = 44 + i;
        assert(s.subrange(pos + 44, pos + 55)[i] == s[pos + 44 + i]);
        assert(s[pos + j] == e[j]);
        assert(e[j] == c5[j - 44]);
    }
    assert(s.subrange(pos + 44, pos + 55) =~= c5);
    assert forall|i: int| 0 <= i < 20 implies s.subrange(pos + 55, pos + 75)[i] == c6[i] by {
        let j = 55 + i;
        assert(s.subrange(pos + 55, pos + 75)[i] == s[pos + 55 + i]);
        assert(s[pos + j] == e[j]);
        assert(e[j] == c6[j - 55]);
    }
    assert(s.subrange(pos + 55, pos + 75) =~= c6);
    assert forall|i: int| 0 <= i < l implies s.subrange(pos + 75, pos + 75 + l)[i] == c7[i] by {
        let j = 75 + i;
        assert(s.subrange(pos + 75, pos + 75 + l)[i] == s[pos + 75 + i]);
        assert(s[pos + j] == e[j]);
        assert(e[j] == c7[j - 75]);
    }
    assert(s.subrange(pos + 75, pos + 75 + l) =~= c7);
    assert(s[pos + (75 + l)] == e[75 + l]);
    assert(s[pos + 75 + l] == e[75 + l]);
    assert(e[75 + l] == '\n');
    assert forall|i: int| 0 <= i < 20 implies is_digit(#[trigger] s[pos + 55 + i]) by {
        assert(s[pos + 55 + i] == c6[i]);
    }
}


proof fn lemma_enc_paths_app(a: Seq<Path>, b: Seq<Path>)
    ensures
        enc_paths(a + b) == enc_paths(a) + enc_paths(b),
    decreases b.len(),
{
    if b.len() == 0 {
        assert(a + b =~= a);
        assert(enc_paths(b) =~= Seq::<char>::empty());
        assert(enc_paths(a) + enc_paths(b) =~= enc_paths(a));
    } else {
        lemma_enc_paths_app(a, b.drop_last());
        assert((a + b).drop_last() =~= a + b.drop_last());
        assert((a + b).last() == b.last());
        assert(enc_paths(a + b) == enc_paths(a + b.drop_last()) + enc_path(b.last()));
        assert(enc_paths(b) == enc_paths(b.drop_last()) + enc_path(b.last()));
        assert(enc_paths(a) + (enc_paths(b.drop_last()) + enc_path(b.last())) =~= (enc_paths(a)
            + enc_paths(b.drop_last())) + enc_path(b.last()));
    }
}

proof fn lemma_enc_paths_take_step(ps: Seq<Path>, k: int)
    requires
        0 <= k < ps.len(),
    ensures
        enc_paths(ps.take(k + 1)) == enc_paths(ps.take(k)) + enc_path(ps[k]),
{
    assert(ps.take(k + 1).drop_last() =~= ps.take(k));
    assert(ps.take(k + 1).last() == ps[k]);
}

proof fn lemma_enc_take_decomp(ps: Seq<Path>, k: int)
    requires
        0 <= k < ps.len(),
    ensures
        enc_paths(ps) == enc_paths(ps.take(k + 1)) + enc_paths(ps.skip(k + 1)),
        enc_paths(ps.take(k + 1)) == enc_paths(ps.take(k)) + enc_path(ps[k]),
{
    lemma_enc_paths_take_step(ps, k);
    assert(ps =~= ps.take(k + 1) + ps.skip(k + 1));
    lemma_enc_paths_app(ps.take(k + 1), ps.skip(k + 1));
}

/// Every record's label is short enough to be framed.
pub open spec fn labels_fit(ps: Seq<Path>) -> bool {
    forall|i: int| 0 <= i < ps.len() ==> (#[trigger] ps[i]).etapp@.len() < pow10(20)
}

/// The converse: a record spelled out at its offsets is the record's
/// encoding in one piece.
proof fn lemma_rec_shape_rev(s: Seq<char>, pos: int, p: Path)
    requires
        rec_shape(s, pos, p),
        0 <= pos,
        p.etapp@.len() < pow10(20),
    ensures
        rec_at(s, pos, p),
{
    let e = enc_path(p);
    let l = p.etapp@.len() as int;
    let c1 = enc_i32f(p.dist as int);
    let c2 = enc_i32f(p.srcdist as int);
    let c3 = enc_i32f(p.destdist as int);
    let c4 = enc_i32f(p.src as int);
    let c5 = enc_i32f(p.dest as int);
    let c6 = digits_fixed(l, 20);
    let c7 = p.etapp@;
    lemma_digits_fixed_props(if p.dist < 0 { -p.dist as int } else { p.dist as int }, 10);
    lemma_digits_fixed_props(if p.srcdist < 0 { -p.srcdist as int } else { p.srcdist as int }, 10);
    lemma_digits_fixed_props(
        if p.destdist < 0 { -p.destdist as int } else { p.destdist as int },
        10,
    );
    lemma_digits_fixed_props(if p.src < 0 { -p.src as int } else { p.src as int }, 10);
    lemma_digits_fixed_props(if p.dest < 0 { -p.dest as int } else { p.dest as int }, 10);
    lemma_digits_fixed_props(l, 20);
    assert(c1.len() == 11 && c2.len() == 11 && c3.len() == 11 && c4.len() == 11 && c5.len() == 11
        && c6.len() == 20);
    assert(e.len() == 76 + l);
    assert forall|i: int| 0 <= i < e.len() implies e[i] == (if i < 11 {
        c1[i]
    } else if i < 22 {
        c2[i - 11]
    } else if i < 33 {
        c3[i - 22]
    } else if i < 44 {
        c4[i - 33]
    } else if i < 55 {
        c5[i - 44]
    } else if i < 75 {
        c6[i - 55]
    } else if i < 75 + l {
        c7[i - 75]
    } else {
        '\n'
    }) by {
        assert(e == c1 + c2 + c3 + c4 + c5 + c6 + c7 + seq!['\n']);
        assert(seq!['\n'][0] == '\n');
    }
    assert forall|i: int| 0 <= i < e.len() implies s.subrange(pos, pos + e.len() as int)[i]
        == e[i] by {
        assert(s.subrange(pos, pos + e.len() as int)[i] == s[pos + i]);
        if i < 11 {
            assert(s.subrange(pos, pos + 11)[i] == s[pos + i]);
        } else if i < 22 {
            let j = i - 11;
            assert(s.subrange(pos + 11, pos + 22)[j] == s[pos + 11 + j]);
            assert(s[pos + 11 + j] == s[pos + i]);
        } else if i < 33 {
            let j = i - 22;
            assert(s.subrange(pos + 22, pos + 33)[j] == s[pos + 22 + j]);
            assert(s[pos + 22 + j] == s[pos + i]);
        } else if i < 44 {
            let j = i - 33;
            assert(s.subrange(pos + 33, pos + 44)[j] == s[pos + 33 + j]);
            assert(s[pos + 33 + j] == s[pos + i]);
        } else if i < 55 {
            let j = i - 44;
            assert(s.subrange(pos + 44, pos + 55)[j] == s[pos + 44 + j]);
            assert(s[pos + 44 + j] == s[pos + i]);
        } else if i < 75 {
            let j = i - 55;
            assert(s.subrange(pos + 55, pos + 75)[j] == s[pos + 55 + j]);
            assert(s[pos + 55 + j] == s[pos + i]);
        } else if i < 75 + l {
            let j = i - 75;
            assert(s.subrange(pos + 75, pos + 75 + l)[j] == s[pos + 75 + j]);
            assert(s[pos + 75 + j] == s[pos + i]);
        } else {
            assert(s[pos + 75 + l] == '\n');
        }
    }
    assert(s.subrange(pos, pos + e.len() as int) =~= e);
}

/// Read a whole catalogue back: on any text that `encode_paths` wrote,
/// this returns records equal field for field to the ones written.
pub fn parse_paths(s: &str) -> (r: Option<Vec<Path>>)
    ensures
        forall|ps: Seq<Path>|
            labels_fit(ps) && s@ == #[trigger] enc_paths(ps) ==> match r {
                Some(out) => out@.len() == ps.len() && forall|i: int|
                    0 <= i < ps.len() ==> path_like(#[trigger] out@[i], ps[i]),
                None => false,
            },
        r is Some ==> s@ == enc_paths((r->0)@),
{
    let n = s.unicode_len();
    let mut out: Vec<Path> = Vec::new();
    let mut pos: usize = 0;
    proof {
        assert(enc_paths(out@) =~= Seq::<char>::empty());
        assert(s@.take(0) =~= Seq::<char>::empty());
    }
    while pos < n
        invariant
            n == s@.len(),
            pos <= n,
            forall|ps: Seq<Path>|
                labels_fit(ps) && s@ == #[trigger] enc_paths(ps) ==> out@.len() <= ps.len() && pos
                    == enc_paths(ps.take(out@.len() as int)).len() && (forall|i: int|
                    0 <= i < out@.len() ==> path_like(#[trigger] out@[i], ps[i])),
            enc_paths(out@) == s@.take(pos as int),
        decreases n - pos,
    {
        let ghost pre_out = out@;
        let ghost pre_pos = pos as int;
        let step = parse_path(s, pos);
        proof {
            assert forall|ps: Seq<Path>|
                labels_fit(ps) && s@ == #[trigger] enc_paths(ps) implies {
                let k = pre_out.len() as int;
                &&& k < ps.len()
                &&& rec_at(s@, pre_pos, ps[k])
            } by {
                let k = pre_out.len() as int;
                if k == ps.len() {
                    assert(ps.take(k) =~= ps);
                    assert(pre_pos == s@.len());
                } else {
                    lemma_enc_take_decomp(ps, k);
                    let a = enc_paths(ps.take(k));
                    let b = enc_path(ps[k]);
                    let c = enc_paths(ps.skip(k + 1));
                    assert(s@ == (a + b) + c);
                    assert(pre_pos == a.len());
                    assert(pre_pos + b.len() <= s@.len());
                    assert forall|i: int|
                        0 <= i < b.len() implies s@.subrange(pre_pos, pre_pos + b.len() as int)[i]
                        == b[i] by {
                        assert(s@.subrange(pre_pos, pre_pos + b.len() as int)[i] == s@[pre_pos
                            + i]);
                        assert(s@[pre_pos + i] == ((a + b) + c)[a.len() + i]);
                    }
                    assert(s@.subrange(pre_pos, pre_pos + b.len() as int) =~= b);
                    assert(ps[k].etapp@.len() < pow10(20));
                    assert(rec_at(s@, pre_pos, ps[k]));
                }
            }
        }
        match step {
            Some((p, np)) => {
                out.push(p);
                pos = np;
                proof {
                    assert(out@.drop_last() =~= pre_out);
                    assert(out@.last() == p);
                    assert(enc_paths(out@) == enc_paths(pre_out) + enc_path(p));
                    assert(s@.take(np as int) =~= s@.take(pre_pos) + s@.subrange(
                        pre_pos,
                        pre_pos + enc_path(p).len() as int,
                    ));
                    assert(enc_paths(out@) == s@.take(np as int));
                    assert forall|ps: Seq<Path>|
                        labels_fit(ps) && s@ == #[trigger] enc_paths(ps) implies out@.len()
                        <= ps.len() && pos == enc_paths(ps.take(out@.len() as int)).len() && (
                    forall|i: int|
                        0 <= i < out@.len() ==> path_like(#[trigger] out@[i], ps[i])) by {
                        let k = pre_out.len() as int;
                        assert(k < ps.len() && rec_at(s@, pre_pos, ps[k]));
                        lemma_enc_take_decomp(ps, k);
                        assert(path_like(p, ps[k]));
                        assert(np == pre_pos + enc_path(ps[k]).len());
                        assert(out@ == pre_out.push(p));
                        assert(out@[k] == p);
                        assert forall|i: int|
                            0 <= i < out@.len() implies path_like(#[trigger] out@[i], ps[i]) by {
                            if i < k {
                                assert(out@[i] == pre_out[i]);
                            }
                        }
                    }
                }
            },
            None => {
                proof {
                    assert forall|ps: Seq<Path>|
                        labels_fit(ps) && s@ == #[trigger] enc_paths(ps) implies false by {
                        let k = pre_out.len() as int;
                        assert(k < ps.len() && rec_at(s@, pre_pos, ps[k]));
                    }
                }
                return None;
            },
        }
    }
    proof {
        assert(s@.take(pos as int) =~= s@);
        assert(enc_paths(out@) == s@);
        assert forall|ps: Seq<Path>|
            labels_fit(ps) && s@ == #[trigger] enc_paths(ps) implies out@.len() == ps.len() && (
        forall|i: int| 0 <= i < ps.len() ==> path_like(#[trigger] out@[i], ps[i])) by {
            let k = out@.len() as int;
            if k < ps.len() {
                lemma_enc_take_decomp(ps, k);
                lemma_digits_fixed_props(ps[k as int].etapp@.len() as int, 20);
                assert(enc_path(ps[k as int]).len() >= 76);
                assert(enc_paths(ps).len() >= enc_paths(ps.take(k)).len() + 76);
            }
        }
    }
    Some(out)
}

} // verus!
