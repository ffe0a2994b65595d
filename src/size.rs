use vstd::prelude::*;

verus! {

/// The most digits shown after the decimal point.
pub const MAX_SCALE: usize = 18;

/// The decimal digit for `d`.
pub open spec fn digit(d: nat) -> char {
    if d == 0 {
        '0'
    } else if d == 1 {
        '1'
    } else if d == 2 {
        '2'
    } else if d == 3 {
        '3'
    } else if d == 4 {
        '4'
    } else if d == 5 {
        '5'
    } else if d == 6 {
        '6'
    } else if d == 7 {
        '7'
    } else if d == 8 {
        '8'
    } else {
        '9'
    }
}

/// `n` written in decimal, without leading zeros.
pub open spec fn decimal(n: nat) -> Seq<char>
    decreases n,
{
    if n < 10 {
        seq![digit(n)]
    } else {
        decimal(n / 10).push(digit(n % 10))
    }
}

/// `s` preceded by as many zeros as make it `width` characters long.
pub open spec fn zero_padded(s: Seq<char>, width: nat) -> Seq<char> {
    if s.len() >= width {
        s
    } else {
        Seq::new((width - s.len()) as nat, |i: int| '0') + s
    }
}

/// How many times 1024 divides into `b` before the quotient falls below 1024.
pub open spec fn unit_power(b: nat) -> nat
    decreases b,
{
    if b < 1024 {
        0
    } else {
        1 + unit_power(b / 1024)
    }
}

pub open spec fn pow(base: nat, e: nat) -> nat
    decreases e,
{
    if e == 0 {
        1
    } else {
        base * pow(base, (e - 1) as nat)
    }
}

/// The binary unit for a power of 1024.
pub open spec fn unit_name(k: nat) -> Seq<char> {
    if k == 0 {
        seq!['B']
    } else {
        let p = if k == 1 {
            'K'
        } else if k == 2 {
            'M'
        } else if k == 3 {
            'G'
        } else if k == 4 {
            'T'
        } else if k == 5 {
            'P'
        } else {
            'E'
        };
        seq![p, 'i', 'B']
    }
}

pub open spec fn effective_scale(scale: nat) -> nat {
    if scale > MAX_SCALE {
        MAX_SCALE as nat
    } else {
        scale
    }
}

/// `b` bytes in human-readable binary units: whole bytes below 1 KiB, otherwise the largest unit
/// that keeps the number at 1 or more, rounded half up to `scale` decimals (at most
/// `MAX_SCALE`).
pub open spec fn size_text(b: nat, scale: nat) -> Seq<char> {
    let k = unit_power(b);
    if k == 0 {
        decimal(b) + seq![' ', 'B']
    } else {
        let s = effective_scale(scale);
        let d = pow(1024, k);
        let p = pow(10, s);
        let scaled = (b * p * 2 + d) / (2 * d);
        let whole = decimal(scaled / p);
        let number = if s == 0 {
            whole
        } else {
            whole + seq!['.'] + zero_padded(decimal(scaled % p), s)
        };
        number + seq![' '] + unit_name(k)
    }
}

/// The decimal digit `d` as text.
fn digit_str(d: u128) -> (r: &'static str)
    requires
        d < 10,
    ensures
        r@ == seq![digit(d as nat)],
{
    proof {
        reveal_strlit("0");
        reveal_strlit("1");
        reveal_strlit("2");
        reveal_strlit("3");
        reveal_strlit("4");
        reveal_strlit("5");
        reveal_strlit("6");
        reveal_strlit("7");
        reveal_strlit("8");
        reveal_strlit("9");
    }
    if d == 0 {
        "0"
    } else if d == 1 {
        "1"
    } else if d == 2 {
        "2"
    } else if d == 3 {
        "3"
    } else if d == 4 {
        "4"
    } else if d == 5 {
        "5"
    } else if d == 6 {
        "6"
    } else if d == 7 {
        "7"
    } else if d == 8 {
        "8"
    } else {
        "9"
    }
}

/// `n` written in decimal.
fn decimal_string(n: u128) -> (r: String)
    ensures
        r@ == decimal(n as nat),
    decreases n,
{
    if n < 10 {
        let mut r = String::new();
        r.append(digit_str(n));
        proof {
            assert(r@ =~= decimal(n as nat));
        }
        r
    } else {
        let mut r = decimal_string(n / 10);
        r.append(digit_str(n % 10));
        proof {
            assert(r@ =~= decimal(n as nat));
        }
        r
    }
}

proof fn lemma_pow_positive(base: nat, e: nat)
    requires
        base >= 1,
    ensures
        pow(base, e) >= 1,
    decreases e,
{
    if e > 0 {
        lemma_pow_positive(base, (e - 1) as nat);
        assert(base * pow(base, (e - 1) as nat) >= 1) by (nonlinear_arith)
            requires
                base >= 1,
                pow(base, (e - 1) as nat) >= 1,
        ;
    }
}

proof fn lemma_pow10_bound(e: nat)
    requires
        e <= 18,
    ensures
        pow(10, e) <= 1_000_000_000_000_000_000,
    decreases e,
{
    if e > 0 {
        lemma_pow10_bound((e - 1) as nat);
        reveal_with_fuel(pow, 19);
        assert(e <= 18);
    }
}

/// The text of a binary unit.
fn unit_str(k: usize) -> (r: &'static str)
    requires
        1 <= k <= 6,
    ensures
        r@ == unit_name(k as nat),
{
    if k == 1 {
        proof {
            reveal_strlit("KiB");
        }
        "KiB"
    } else if k == 2 {
        proof {
            reveal_strlit("MiB");
        }
        "MiB"
    } else if k == 3 {
        proof {
            reveal_strlit("GiB");
        }
        "GiB"
    } else if k == 4 {
        proof {
            reveal_strlit("TiB");
        }
        "TiB"
    } else if k == 5 {
        proof {
            reveal_strlit("PiB");
        }
        "PiB"
    } else {
        proof {
            reveal_strlit("EiB");
        }
        "EiB"
    }
}

/// Formats `bytes` as `size_text` describes.
pub fn format_size(bytes: u64, scale: usize) -> (r: String)
    ensures
        r@ == size_text(bytes as nat, scale as nat),
{
    let mut q: u64 = bytes;
    let mut k: usize = 0;
    let mut d: u64 = 1;
    proof {
        assert(bytes as nat / 1 == bytes as nat);
    }
    while q >= 1024
        invariant
            d >= 1,
            d as nat == pow(1024, k as nat),
            q as nat == bytes as nat / (d as nat),
            unit_power(bytes as nat) == k + unit_power(q as nat),
            k <= 6,
            k == 6 ==> d == 1_152_921_504_606_846_976u64,
        decreases q,
    {
        proof {
            assert((q as nat) * (d as nat) <= bytes as nat) by (nonlinear_arith)
                requires
                    q as nat == bytes as nat / (d as nat),
                    d >= 1,
            ;
            assert((d as nat) * 1024 <= (q as nat) * (d as nat)) by (nonlinear_arith)
                requires
                    q >= 1024,
                    d >= 1,
            ;
            assert(bytes as nat / ((d as nat) * 1024) == (bytes as nat / (d as nat)) / 1024) by (nonlinear_arith)
                requires
                    d >= 1,
            ;
            if k == 6 {
                assert(false) by (nonlinear_arith)
                    requires
                        (q as nat) * (d as nat) <= bytes as nat,
                        bytes <= u64::MAX,
                        q >= 1024,
                        d == 1_152_921_504_606_846_976u64,
                ;
            }
            if k == 5 {
                reveal_with_fuel(pow, 7);
            }
        }
        q = q / 1024;
        d = d * 1024;
        k = k + 1;
    }
    if k == 0 {
        let mut r = decimal_string(bytes as u128);
        proof {
            reveal_strlit(" B");
        }
        r.append(" B");
        return r;
    }
    let ghost b = bytes as nat;
    let s: usize = if scale > MAX_SCALE {
        MAX_SCALE
    } else {
        scale
    };
    let mut p: u128 = 1;
    let mut i: usize = 0;
    while i < s
        invariant
            0 <= i <= s,
            s <= 18,
            p as nat == pow(10, i as nat),
        decreases s - i,
    {
        proof {
            lemma_pow10_bound(i as nat);
        }
        p = p * 10;
        i = i + 1;
    }
    proof {
        lemma_pow10_bound(s as nat);
        lemma_pow_positive(10, s as nat);
        assert((bytes as nat) * (p as nat) * 2 + (d as nat) <= 0xffff_ffff_ffff_ffff_ffff_ffff_ffff_ffffnat) by (nonlinear_arith)
            requires
                p as nat <= 1_000_000_000_000_000_000nat,
                bytes <= u64::MAX,
                d <= u64::MAX,
        ;
    }
    let num: u128 = (bytes as u128) * p * 2 + (d as u128);
    let den: u128 = 2 * (d as u128);
    let scaled: u128 = num / den;
    let whole: u128 = scaled / p;
    let frac: u128 = scaled % p;
    let mut r = decimal_string(whole);
    if s > 0 {
        proof {
            reveal_strlit(".");
            reveal_strlit("0");
        }
        r.append(".");
        let f = decimal_string(frac);
        let flen = f.as_str().unicode_len();
        let ghost head = r@;
        let mut j: usize = flen;
        while j < s
            invariant
                flen <= j,
                flen == f@.len(),
                flen >= s ==> j == flen,
                flen < s ==> j <= s,
                r@ == head + Seq::new((j - flen) as nat, |t: int| '0'),
            decreases s - j,
        {
            proof {
                reveal_strlit("0");
            }
            r.append("0");
            proof {
                assert(head + Seq::new((j + 1 - flen) as nat, |t: int| '0') =~= head + Seq::new((j - flen) as nat, |t: int| '0') + seq!['0']);
            }
            j = j + 1;
        }
        r.append(f.as_str());
        proof {
            let zs = Seq::new((j - flen) as nat, |t: int| '0');
            if flen >= s {
                assert(zs =~= Seq::<char>::empty());
                assert(head + zs + f@ =~= head + f@);
            } else {
                assert(j == s);
                assert(head + zs + f@ =~= head + (zs + f@));
            }
        }
    }
    proof {
        reveal_strlit(" ");
    }
    r.append(" ");
    r.append(unit_str(k));
    proof {
        let whole_s = decimal(whole as nat);
        assert(r@ =~= size_text(b, scale as nat));
    }
    r
}

} // verus!
