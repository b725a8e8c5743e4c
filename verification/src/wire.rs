//! The wire form of the client-safe cell view: the tagged union
//! `{"state":"unrevealed"}`, `{"state":"flagged"}`, `{"state":"mine"}`,
//! `{"state":"number","value":N}`, rendered and parsed by verified code.
//! Parsing accepts exactly the rendered texts, so a round trip returns the
//! very cell it started from.

use crate::board::ExternalCell;
use vstd::prelude::*;
use vstd::string::StrSliceExecFns;
use vstd::string::StringExecFns;

verus! {

/// The decimal digit `d` as a character.
pub open spec fn digit_char(d: int) -> char {
    if d == 0 {
        '0'
    } else if d == 1 {
        '1'
    } else if d == 2 {
        '2'
    } else if d == 3 {
        '3'
    } else if d == 4 {
        '4'
    } else if d == 5 {
        '5'
    } else if d == 6 {
        '6'
    } else if d == 7 {
        '7'
    } else if d == 8 {
        '8'
    } else {
        '9'
    }
}

/// The canonical decimal form of `v` (1 to 3 digits, no leading zero),
/// for `0 <= v < 1000`.
pub open spec fn spec_digits(v: int) -> Seq<char> {
    if v < 10 {
        seq![digit_char(v)]
    } else if v < 100 {
        seq![digit_char(v / 10), digit_char(v % 10)]
    } else {
        seq![digit_char(v / 100), digit_char((v / 10) % 10), digit_char(v % 10)]
    }
}

/// The exact wire text of one external cell.
pub open spec fn spec_render(c: ExternalCell) -> Seq<char> {
    match c {
        ExternalCell::Unrevealed => "{\"state\":\"unrevealed\"}"@,
        ExternalCell::Flagged => "{\"state\":\"flagged\"}"@,
        ExternalCell::Mine => "{\"state\":\"mine\"}"@,
        ExternalCell::Number { value } => "{\"state\":\"number\",\"value\":"@ + spec_digits(
            value as int,
        ) + "}"@,
    }
}

/// The one-character text of a decimal digit.
fn digit_str(d: u8) -> (s: &'static str)
    requires
        d < 10,
    ensures
        s@ == seq![digit_char(d as int)],
{
    proof {
        reveal_strlit("0");
        reveal_strlit("1");
        reveal_strlit("2");
        reveal_strlit("3");
        reveal_strlit("4");
        reveal_strlit("5");
        reveal_strlit("6");
        reveal_strlit("7");
        reveal_strlit("8");
        reveal_strlit("9");
    }
    let s = match d {
        0 => "0",
        1 => "1",
        2 => "2",
        3 => "3",
        4 => "4",
        5 => "5",
        6 => "6",
        7 => "7",
        8 => "8",
        _ => "9",
    };
    proof {
        assert(s@ =~= seq![digit_char(d as int)]);
    }
    s
}

/// The decimal digit a character stands for, if any.
fn char_digit(c: char) -> (r: Option<u8>)
    ensures
        match r {
            Some(d) => d < 10 && c == digit_char(d as int),
            None => forall|d: int| 0 <= d < 10 ==> c != digit_char(d),
        },
{
    match c {
        '0' => Some(0),
        '1' => Some(1),
        '2' => Some(2),
        '3' => Some(3),
        '4' => Some(4),
        '5' => Some(5),
        '6' => Some(6),
        '7' => Some(7),
        '8' => Some(8),
        '9' => Some(9),
        _ => None,
    }
}

/// Character-for-character equality of two texts.
fn str_eq(s: &str, t: &str) -> (b: bool)
    ensures
        b <==> s@ == t@,
{
    let n = s.unicode_len();
    let m = t.unicode_len();
    if n != m {
        return false;
    }
    let mut i: usize = 0;
    while i < n
        invariant
            i <= n,
            n == s@.len(),
            n == t@.len(),
            forall|k: int| 0 <= k < i as int ==> s@[k] == t@[k],
        decreases n - i,
    {
        if s.get_char(i) != t.get_char(i) {
            return false;
        }
        i += 1;
    }
    proof {
        assert(s@ =~= t@);
    }
    true
}

/// Whether `t` is a character-for-character prefix of `s`.
fn has_prefix(s: &str, t: &str) -> (b: bool)
    ensures
        b <==> (s@.len() >= t@.len() && forall|k: int| 0 <= k < t@.len() ==> s@[k] == t@[k]),
{
    let n = s.unicode_len();
    let m = t.unicode_len();
    if n < m {
        return false;
    }
    let mut i: usize = 0;
    while i < m
        invariant
            i <= m,
            n == s@.len(),
            m == t@.len(),
            n >= m,
            forall|k: int| 0 <= k < i as int ==> s@[k] == t@[k],
        decreases m - i,
    {
        if s.get_char(i) != t.get_char(i) {
            return false;
        }
        i += 1;
    }
    true
}

/// Render one external cell as its wire text.
pub fn render_external_cell(c: &ExternalCell) -> (out: String)
    ensures
        out@ == spec_render(*c),
{
    match c {
        ExternalCell::Unrevealed => String::from_str("{\"state\":\"unrevealed\"}"),
        ExternalCell::Flagged => String::from_str("{\"state\":\"flagged\"}"),
        ExternalCell::Mine => String::from_str("{\"state\":\"mine\"}"),
        ExternalCell::Number { value } => {
            let v = *value;
            let mut out = String::from_str("{\"state\":\"number\",\"value\":");
            if v < 10 {
                out.append(digit_str(v));
            } else if v < 100 {
                out.append(digit_str(v / 10));
                out.append(digit_str(v % 10));
            } else {
                out.append(digit_str(v / 100));
                out.append(digit_str((v / 10) % 10));
                out.append(digit_str(v % 10));
            }
            out.append("}");
            proof {
                assert(out@ =~= spec_render(*c));
            }
            out
        },
    }
}

/// Canonical decimal forms are one to one.
proof fn lemma_digits_injective(v1: int, v2: int)
    requires
        0 <= v1 < 256,
        0 <= v2 < 256,
        spec_digits(v1) == spec_digits(v2),
    ensures
        v1 == v2,
{
    assert(spec_digits(v1).len() == spec_digits(v2).len());
    assert(spec_digits(v1).len() == (if v1 < 10 {
        1int
    } else if v1 < 100 {
        2int
    } else {
        3int
    }));
    assert(spec_digits(v2).len() == (if v2 < 10 {
        1int
    } else if v2 < 100 {
        2int
    } else {
        3int
    }));
    if v1 < 10 && v2 < 10 {
        assert(spec_digits(v1) == seq![digit_char(v1)]);
        assert(spec_digits(v2) == seq![digit_char(v2)]);
        assert(seq![digit_char(v1)][0] == digit_char(v1));
        assert(seq![digit_char(v2)][0] == digit_char(v2));
        assert(spec_digits(v1)[0] == spec_digits(v2)[0]);
        assert(digit_char(v1) == digit_char(v2));
        assert(v1 == v2);
    } else if 10 <= v1 < 100 && 10 <= v2 < 100 {
        assert(spec_digits(v1)[0] == spec_digits(v2)[0]);
        assert(spec_digits(v1)[1] == spec_digits(v2)[1]);
        assert(v1 / 10 == v2 / 10 && v1 % 10 == v2 % 10);
        assert(v1 == 10 * (v1 / 10) + v1 % 10);
        assert(v2 == 10 * (v2 / 10) + v2 % 10);
    } else if 100 <= v1 && 100 <= v2 {
        assert(spec_digits(v1)[0] == spec_digits(v2)[0]);
        assert(spec_digits(v1)[1] == spec_digits(v2)[1]);
        assert(spec_digits(v1)[2] == spec_digits(v2)[2]);
        assert(v1 / 100 == v2 / 100 && (v1 / 10) % 10 == (v2 / 10) % 10 && v1 % 10 == v2 % 10);
        assert(v1 / 10 == 10 * (v1 / 100) + (v1 / 10) % 10);
        assert(v2 / 10 == 10 * (v2 / 100) + (v2 / 10) % 10);
        assert(v1 == 10 * (v1 / 10) + v1 % 10);
        assert(v2 == 10 * (v2 / 10) + v2 % 10);
    }
}

/// Two distinct cells never share one wire text: parsing a rendered cell
/// can only give back the very cell it came from.
pub proof fn lemma_render_injective(c1: ExternalCell, c2: ExternalCell)
    requires
        spec_render(c1) == spec_render(c2),
    ensures
        c1 == c2,
{
    reveal_strlit("{\"state\":\"unrevealed\"}");
    reveal_strlit("{\"state\":\"flagged\"}");
    reveal_strlit("{\"state\":\"mine\"}");
    reveal_strlit("{\"state\":\"number\",\"value\":");
    reveal_strlit("}");
    match (c1, c2) {
        (ExternalCell::Number { value: v1 }, ExternalCell::Number { value: v2 }) => {
            let p = "{\"state\":\"number\",\"value\":"@;
            let d1 = spec_digits(v1 as int);
            let d2 = spec_digits(v2 as int);
            assert(spec_render(c1) == p + d1 + "}"@);
            assert(spec_render(c2) == p + d2 + "}"@);
            assert((p + d1 + "}"@).len() == p.len() + d1.len() + 1);
            assert((p + d2 + "}"@).len() == p.len() + d2.len() + 1);
            assert(d1.len() == d2.len());
            assert forall|j: int| 0 <= j < d1.len() implies d1[j] == d2[j] by {
                assert(spec_render(c1)[p.len() + j] == d1[j]);
                assert(spec_render(c2)[p.len() + j] == d2[j]);
            }
            assert(d1 =~= d2);
            lemma_digits_injective(v1 as int, v2 as int);
        },
        _ => {
            let lu = "{\"state\":\"unrevealed\"}"@;
            let lf = "{\"state\":\"flagged\"}"@;
            let lm = "{\"state\":\"mine\"}"@;
            let p = "{\"state\":\"number\",\"value\":"@;
            assert(lu.len() != lf.len() && lu.len() != lm.len() && lf.len() != lm.len());
            assert(lu.len() < p.len() + 2 && lf.len() < p.len() + 2 && lm.len() < p.len() + 2);
            assert(spec_render(c1).len() == spec_render(c2).len());
            if let ExternalCell::Number { value } = c1 {
                assert(spec_digits(value as int).len() >= 1);
                assert(spec_render(c1).len() >= p.len() + 2);
            }
            if let ExternalCell::Number { value } = c2 {
                assert(spec_digits(value as int).len() >= 1);
                assert(spec_render(c2).len() >= p.len() + 2);
            }
            assert(c1 == c2);
        },
    }
}

/// Parse a wire text back into the cell it renders: exactly the rendered
/// texts are accepted, and each gives back its own cell.
pub fn parse_external_cell(s: &str) -> (r: Option<ExternalCell>)
    ensures
        match r {
            Some(c) => s@ == spec_render(c),
            None => forall|c: ExternalCell| s@ != spec_render(c),
        },
        forall|c: ExternalCell| s@ == spec_render(c) ==> r == Some(c),
{
    let lit_unrevealed = "{\"state\":\"unrevealed\"}";
    let lit_flagged = "{\"state\":\"flagged\"}";
    let lit_mine = "{\"state\":\"mine\"}";
    let prefix = "{\"state\":\"number\",\"value\":";
    if str_eq(s, lit_unrevealed) {
        proof {
            assert forall|c: ExternalCell| s@ == spec_render(c) implies Some(
                ExternalCell::Unrevealed,
            ) == Some(c) by {
                lemma_render_injective(c, ExternalCell::Unrevealed);
            }
        }
        return Some(ExternalCell::Unrevealed);
    }
    if str_eq(s, lit_flagged) {
        proof {
            assert forall|c: ExternalCell| s@ == spec_render(c) implies Some(
                ExternalCell::Flagged,
            ) == Some(c) by {
                lemma_render_injective(c, ExternalCell::Flagged);
            }
        }
        return Some(ExternalCell::Flagged);
    }
    if str_eq(s, lit_mine) {
        proof {
            assert forall|c: ExternalCell| s@ == spec_render(c) implies Some(ExternalCell::Mine)
                == Some(c) by {
                lemma_render_injective(c, ExternalCell::Mine);
            }
        }
        return Some(ExternalCell::Mine);
    }
    let n = s.unicode_len();
    let plen = prefix.unicode_len();
    proof {
        reveal_strlit("}");
        reveal_strlit("{\"state\":\"number\",\"value\":");
    }
    if n < plen + 2 || !has_prefix(s, prefix) {
        proof {
            assert forall|c: ExternalCell| s@ != spec_render(c) by {
                if let ExternalCell::Number { value } = c {
                    let d = spec_digits(value as int);
                    assert(spec_render(c).len() == plen + d.len() + 1);
                    assert(d.len() >= 1);
                    if s@ == spec_render(c) {
                        assert(s@.len() >= plen + 2);
                        assert forall|k: int| 0 <= k < plen implies s@[k] == prefix@[k] by {
                            assert(spec_render(c)[k] == prefix@[k]);
                        }
                    }
                }
            }
        }
        return None;
    }
    if s.get_char(n - 1) != '}' {
        proof {
            assert forall|c: ExternalCell| s@ != spec_render(c) by {
                if let ExternalCell::Number { value } = c {
                    let d = spec_digits(value as int);
                    if s@ == spec_render(c) {
                        assert(s@[s@.len() - 1] == "}"@[0]);
                        assert("}"@[0] == '}');
                    }
                }
            }
        }
        return None;
    }
    let k = n - plen - 1;
    if k > 3 {
        proof {
            assert forall|c: ExternalCell| s@ != spec_render(c) by {
                if let ExternalCell::Number { value } = c {
                    assert(spec_digits(value as int).len() <= 3);
                }
            }
        }
        return None;
    }
    let d0 = match char_digit(s.get_char(plen)) {
        Some(d) => d,
        None => {
            proof {
                assert forall|c: ExternalCell| s@ != spec_render(c) by {
                    if let ExternalCell::Number { value } = c {
                        let v = value as int;
                        let d = spec_digits(v);
                        let first = if v < 10 {
                            v
                        } else if v < 100 {
                            v / 10
                        } else {
                            v / 100
                        };
                        if s@ == spec_render(c) {
                            assert(s@[plen as int] == d[0]);
                            assert(d[0] == digit_char(first));
                            assert(0 <= first < 10);
                        }
                    }
                }
            }
            return None;
        },
    };
    if k == 1 {
        let v = d0;
        proof {
            assert(spec_digits(v as int) == seq![digit_char(v as int)]);
            assert(s@ =~= "{\"state\":\"number\",\"value\":"@ + spec_digits(v as int) + "}"@);
            assert forall|c: ExternalCell|
                s@ == spec_render(c) implies Some(ExternalCell::Number { value: v }) == Some(
                c,
            ) by {
                lemma_render_injective(c, ExternalCell::Number { value: v });
            }
        }
        return Some(ExternalCell::Number { value: v });
    }
    let d1 = match char_digit(s.get_char(plen + 1)) {
        Some(d) => d,
        None => {
            proof {
                assert forall|c: ExternalCell| s@ != spec_render(c) by {
                    if let ExternalCell::Number { value } = c {
                        let d = spec_digits(value as int);
                        if s@ == spec_render(c) {
                            assert(d.len() == k);
                            assert(s@[plen as int + 1] == d[1]);
                        }
                    }
                }
            }
            return None;
        },
    };
    if d0 == 0 {
        proof {
            assert forall|c: ExternalCell| s@ != spec_render(c) by {
                if let ExternalCell::Number { value } = c {
                    let v = value as int;
                    let d = spec_digits(v);
                    if s@ == spec_render(c) {
                        assert(d.len() == k);
                        assert(v >= 10);
                        assert(s@[plen as int] == d[0]);
                        assert(d[0] == (if v < 100 {
                            digit_char(v / 10)
                        } else {
                            digit_char(v / 100)
                        }));
                        assert(digit_char(0) == '0');
                    }
                }
            }
        }
        return None;
    }
    if k == 2 {
        let v = d0 * 10 + d1;
        proof {
            assert(10 <= v < 100);
            assert(v / 10 == d0 as int && v % 10 == d1 as int);
            assert(spec_digits(v as int) =~= seq![
                digit_char(d0 as int),
                digit_char(d1 as int),
            ]);
            assert(s@ =~= "{\"state\":\"number\",\"value\":"@ + spec_digits(v as int) + "}"@);
            assert forall|c: ExternalCell|
                s@ == spec_render(c) implies Some(ExternalCell::Number { value: v }) == Some(
                c,
            ) by {
                lemma_render_injective(c, ExternalCell::Number { value: v });
            }
        }
        return Some(ExternalCell::Number { value: v });
    }
    let d2 = match char_digit(s.get_char(plen + 2)) {
        Some(d) => d,
        None => {
            proof {
                assert forall|c: ExternalCell| s@ != spec_render(c) by {
                    if let ExternalCell::Number { value } = c {
                        let d = spec_digits(value as int);
                        if s@ == spec_render(c) {
                            assert(d.len() == k);
                            assert(s@[plen as int + 2] == d[2]);
                        }
                    }
                }
            }
            return None;
        },
    };
    let val: u32 = d0 as u32 * 100 + d1 as u32 * 10 + d2 as u32;
    proof {
        assert(100 <= val < 1000);
        assert(val as int / 100 == d0 as int);
        assert((val as int / 10) % 10 == d1 as int);
        assert(val as int % 10 == d2 as int);
    }
    if val > 255 {
        proof {
            assert forall|c: ExternalCell| s@ != spec_render(c) by {
                if let ExternalCell::Number { value } = c {
                    let v = value as int;
                    let d = spec_digits(v);
                    if s@ == spec_render(c) {
                        assert(d.len() == k);
                        assert(v >= 100);
                        assert(s@[plen as int] == digit_char(v / 100));
                        assert(s@[plen as int + 1] == digit_char((v / 10) % 10));
                        assert(s@[plen as int + 2] == digit_char(v % 10));
                        assert(v / 100 == d0 as int);
                        assert((v / 10) % 10 == d1 as int);
                        assert(v % 10 == d2 as int);
                        assert(v / 10 == 10 * (v / 100) + (v / 10) % 10);
                        assert(v == 10 * (v / 10) + v % 10);
                        assert(v == val as int);
                    }
                }
            }
        }
        return None;
    }
    let v = val as u8;
    proof {
        assert(spec_digits(v as int) =~= seq![
            digit_char(d0 as int),
            digit_char(d1 as int),
            digit_char(d2 as int),
        ]);
        assert(s@ =~= "{\"state\":\"number\",\"value\":"@ + spec_digits(v as int) + "}"@);
        assert forall|c: ExternalCell|
            s@ == spec_render(c) implies Some(ExternalCell::Number { value: v }) == Some(c) by {
            lemma_render_injective(c, ExternalCell::Number { value: v });
        }
    }
    Some(ExternalCell::Number { value: v })
}

} // verus!
