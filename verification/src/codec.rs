//! The canonical persistence codec for [`Config`]: a JSON object with
//! camelCase keys, written in one fixed shape, so that loading canonical
//! text always succeeds and a successful load is checked to be exactly the
//! encoding of the value it returns.

use vstd::prelude::*;
use crate::data::{Config, ConfigView};

verus! {

/// The lowercase hexadecimal digit for `d` (meaningful for `d < 16`).
pub open spec fn hex_char(d: nat) -> char {
    if d < 10 {
        crate::notify::digit_char(d)
    } else if d == 10 {
        'a'
    } else if d == 11 {
        'b'
    } else if d == 12 {
        'c'
    } else if d == 13 {
        'd'
    } else if d == 14 {
        'e'
    } else {
        'f'
    }
}

/// How one character is written inside a JSON string literal: quote and
/// backslash get a backslash escape, the common control characters get their
/// short escapes, the rest of the control range gets `\u00XX`, and every
/// other character stands as itself.
pub open spec fn esc_char(c: char) -> Seq<char> {
    if c == '"' {
        seq!['\\', '"']
    } else if c == '\\' {
        seq!['\\', '\\']
    } else if c == '\n' {
        seq!['\\', 'n']
    } else if c == '\r' {
        seq!['\\', 'r']
    } else if c == '\t' {
        seq!['\\', 't']
    } else if (c as nat) < 32 {
        seq!['\\', 'u', '0', '0', hex_char(c as nat / 16), hex_char(c as nat % 16)]
    } else {
        seq![c]
    }
}

/// The body of a JSON string literal for `s`.
pub open spec fn esc(s: Seq<char>) -> Seq<char>
    decreases s.len(),
{
    if s.len() == 0 {
        Seq::empty()
    } else {
        esc(s.drop_last()) + esc_char(s.last())
    }
}

/// The JSON string literal for `s`, quotes included.
pub open spec fn enc_string(s: Seq<char>) -> Seq<char> {
    seq!['"'] + esc(s) + seq!['"']
}

/// The comma-separated JSON string literals for a sequence of logins.
pub open spec fn enc_logins(ls: Seq<Seq<char>>) -> Seq<char>
    decreases ls.len(),
{
    if ls.len() == 0 {
        Seq::empty()
    } else if ls.len() == 1 {
        enc_string(ls[0])
    } else {
        enc_logins(ls.drop_last()) + seq![','] + enc_string(ls.last())
    }
}

/// The canonical encoding of a configuration record.
pub open spec fn enc_config(c: ConfigView) -> Seq<char> {
    "{\"url\":"@ + enc_string(c.url) + ",\"twitchLogins\":["@ + enc_logins(c.twitch_logins)
        + "],\"password\":"@ + enc_string(c.password) + seq!['}']
}

/// Relies on `String::push`: appends the one character to the string.
#[verifier::external_body]
fn push_char(s: &mut String, c: char)
    ensures
        final(s)@ == old(s)@.push(c),
{
    s.push(c)
}

fn hex_str(d: u32) -> (r: &'static str)
    requires
        d < 16,
    ensures
        r@ == seq![hex_char(d as nat)],
{
    let r = match d {
        0 => "0",
        1 => "1",
        2 => "2",
        3 => "3",
        4 => "4",
        5 => "5",
        6 => "6",
        7 => "7",
        8 => "8",
        9 => "9",
        10 => "a",
        11 => "b",
        12 => "c",
        13 => "d",
        14 => "e",
        _ => "f",
    };
    proof {
        reveal_strlit("0");
        reveal_strlit("1");
        reveal_strlit("2");
        reveal_strlit("3");
        reveal_strlit("4");
        reveal_strlit("5");
        reveal_strlit("6");
        reveal_strlit("7");
        reveal_strlit("8");
        reveal_strlit("9");
        reveal_strlit("a");
        reveal_strlit("b");
        reveal_strlit("c");
        reveal_strlit("d");
        reveal_strlit("e");
        reveal_strlit("f");
        assert(r@ =~= seq![hex_char(d as nat)]);
    }
    r
}

/// Appends the escaped body of a JSON string literal for `s`.
fn escape_into(s: &str, out: &mut String)
    ensures
        final(out)@ == old(out)@ + esc(s@),
{
    let n = s.unicode_len();
    let mut i: usize = 0;
    proof {
        assert(out@ =~= old(out)@ + esc(s@.subrange(0, 0)));
    }
    while i < n
        invariant
            n == s@.len(),
            i <= n,
            out@ == old(out)@ + esc(s@.subrange(0, i as int)),
        decreases n - i,
    {
        let c = s.get_char(i);
        proof {
            reveal_strlit("\\\"");
            reveal_strlit("\\\\");
            reveal_strlit("\\n");
            reveal_strlit("\\r");
            reveal_strlit("\\t");
            reveal_strlit("\\u00");
        }
        if c == '"' {
            out.append("\\\"");
            proof {
                assert(out@ =~= old(out)@ + esc(s@.subrange(0, i as int)) + esc_char(c));
            }
        } else if c == '\\' {
            out.append("\\\\");
            proof {
                assert(out@ =~= old(out)@ + esc(s@.subrange(0, i as int)) + esc_char(c));
            }
        } else if c == '\n' {
            out.append("\\n");
            proof {
                assert(out@ =~= old(out)@ + esc(s@.subrange(0, i as int)) + esc_char(c));
            }
        } else if c == '\r' {
            out.append("\\r");
            proof {
                assert(out@ =~= old(out)@ + esc(s@.subrange(0, i as int)) + esc_char(c));
            }
        } else if c == '\t' {
            out.append("\\t");
            proof {
                assert(out@ =~= old(out)@ + esc(s@.subrange(0, i as int)) + esc_char(c));
            }
        } else if (c as u32) < 32 {
            let v = c as u32;
            out.append("\\u00");
            out.append(hex_str(v / 16));
            out.append(hex_str(v % 16));
            proof {
                assert(v as nat / 16 == c as nat / 16 && v as nat % 16 == c as nat % 16);
                assert(out@ =~= old(out)@ + esc(s@.subrange(0, i as int)) + esc_char(c));
            }
        } else {
            push_char(out, c);
            proof {
                assert(out@ =~= old(out)@ + esc(s@.subrange(0, i as int)) + esc_char(c));
            }
        }
        proof {
            let pre = s@.subrange(0, i as int);
            let next = s@.subrange(0, i as int + 1);
            assert(next.drop_last() =~= pre);
            assert(next.last() == s@[i as int]);
            assert(esc(next) == esc(pre) + esc_char(s@[i as int]));
        }
        i = i + 1;
    }
    proof {
        assert(s@.subrange(0, n as int) =~= s@);
    }
}

/// Appends the JSON string literal for `s`, quotes included.
fn encode_string_into(s: &str, out: &mut String)
    ensures
        final(out)@ == old(out)@ + enc_string(s@),
{
    proof {
        reveal_strlit("\"");
    }
    out.append("\"");
    escape_into(s, out);
    out.append("\"");
    proof {
        assert(out@ =~= old(out)@ + enc_string(s@));
    }
}

/// Renders the canonical encoding of `config`; this exact text is what the
/// collector persists.
pub fn encode_config(config: &Config) -> (r: String)
    ensures
        r@ == enc_config(config@),
{
    proof {
        reveal_strlit("{\"url\":");
        reveal_strlit(",\"twitchLogins\":[");
        reveal_strlit("],\"password\":");
        reveal_strlit("}");
    }
    let mut out = "{\"url\":".to_owned();
    encode_string_into(config.url.as_str(), &mut out);
    out.append(",\"twitchLogins\":[");
    let ghost pre = out@;
    let n = config.twitch_logins.len();
    let ghost logins = config@.twitch_logins;
    proof {
        assert(logins.len() == n);
        assert(out@ =~= pre + enc_logins(logins.subrange(0, 0)));
    }
    let mut i: usize = 0;
    while i < n
        invariant
            n == config.twitch_logins@.len(),
            logins == config@.twitch_logins,
            logins.len() == n,
            i <= n,
            out@ == pre + enc_logins(logins.subrange(0, i as int)),
        decreases n - i,
    {
        if i > 0 {
            proof {
                reveal_strlit(",");
            }
            out.append(",");
        }
        proof {
            assert(config.twitch_logins@[i as int]@ == logins[i as int]);
        }
        encode_string_into(config.twitch_logins[i].as_str(), &mut out);
        proof {
            let prefix = logins.subrange(0, i as int);
            let next = logins.subrange(0, i as int + 1);
            assert(next.drop_last() =~= prefix);
            assert(next.last() == logins[i as int]);
            if i == 0 {
                assert(enc_logins(next) == enc_string(logins[0]));
                assert(out@ =~= pre + enc_logins(next));
            } else {
                assert(enc_logins(next) == enc_logins(prefix) + seq![','] + enc_string(
                    logins[i as int],
                ));
                assert(out@ =~= pre + enc_logins(next));
            }
        }
        i = i + 1;
    }
    proof {
        assert(logins.subrange(0, n as int) =~= logins);
    }
    out.append("],\"password\":");
    encode_string_into(config.password.as_str(), &mut out);
    out.append("}");
    proof {
        assert(out@ =~= enc_config(config@));
    }
    out
}

fn ctrl_char(v: u32) -> (c: char)
    requires
        v < 32,
    ensures
        c as u32 == v,
        c as nat == v as nat,
{
    match v {
        0 => '\u{00}',
        1 => '\u{01}',
        2 => '\u{02}',
        3 => '\u{03}',
        4 => '\u{04}',
        5 => '\u{05}',
        6 => '\u{06}',
        7 => '\u{07}',
        8 => '\u{08}',
        9 => '\u{09}',
        10 => '\u{0a}',
        11 => '\u{0b}',
        12 => '\u{0c}',
        13 => '\u{0d}',
        14 => '\u{0e}',
        15 => '\u{0f}',
        16 => '\u{10}',
        17 => '\u{11}',
        18 => '\u{12}',
        19 => '\u{13}',
        20 => '\u{14}',
        21 => '\u{15}',
        22 => '\u{16}',
        23 => '\u{17}',
        24 => '\u{18}',
        25 => '\u{19}',
        26 => '\u{1a}',
        27 => '\u{1b}',
        28 => '\u{1c}',
        29 => '\u{1d}',
        30 => '\u{1e}',
        _ => '\u{1f}',
    }
}

fn hex_val(c: char) -> (r: Option<u32>)
    ensures
        r matches Some(v) ==> v < 16,
        forall|x: nat| x < 16 && c == hex_char(x) ==> r == Some(x as u32),
{
    match c {
        '0' => Some(0),
        '1' => Some(1),
        '2' => Some(2),
        '3' => Some(3),
        '4' => Some(4),
        '5' => Some(5),
        '6' => Some(6),
        '7' => Some(7),
        '8' => Some(8),
        '9' => Some(9),
        'a' => Some(10),
        'b' => Some(11),
        'c' => Some(12),
        'd' => Some(13),
        'e' => Some(14),
        'f' => Some(15),
        _ => None,
    }
}

proof fn lemma_subrange_of_concat(s: Seq<char>, pre: Seq<char>, mid: Seq<char>, post: Seq<char>)
    requires
        s == pre + mid + post,
    ensures
        s.subrange(pre.len() as int, (pre.len() + mid.len()) as int) == mid,
        forall|t: int| 0 <= t < mid.len() ==> s[pre.len() + t] == mid[t],
{
    assert forall|t: int| 0 <= t < mid.len() implies s[pre.len() + t] == mid[t] by {
        assert(s[pre.len() + t] == (pre + mid + post)[pre.len() + t]);
        assert((pre + mid)[pre.len() + t] == mid[t]);
    }
    assert(s.subrange(pre.len() as int, (pre.len() + mid.len()) as int) =~= mid);
}

fn eat_lit(s: &str, i: usize, lit: &str) -> (r: Option<usize>)
    ensures
        r matches Some(j) ==> i <= j <= s@.len() && j as int == i + lit@.len(),
        (i + lit@.len() <= s@.len() && s@.subrange(i as int, i + lit@.len() as int) == lit@)
            ==> (r matches Some(j) && j as int == i + lit@.len()),
{
    let sn = s.unicode_len();
    let m = lit.unicode_len();
    if i > sn || sn - i < m {
        return None;
    }
    let mut k: usize = 0;
    while k < m
        invariant
            k <= m,
            m <= sn - i,
            i + m <= sn,
            sn == s@.len(),
            m == lit@.len(),
        decreases m - k,
    {
        if s.get_char(i + k) != lit.get_char(k) {
            proof {
                if i + lit@.len() <= s@.len() && s@.subrange(i as int, i + lit@.len() as int)
                    == lit@ {
                    assert(s@.subrange(i as int, i + lit@.len() as int)[k as int] == s@[i as int
                        + k]);
                    assert(false);
                }
            }
            return None;
        }
        k = k + 1;
    }
    Some(i + m)
}

proof fn lemma_char_nat_inj(a: char, b: char)
    requires
        a as nat == b as nat,
    ensures
        a == b,
{
}

proof fn lemma_string_scan_step(s: Seq<char>, i: int, u: Seq<char>, kk: int, j: int)
    requires
        lit_at(s, i, u),
        0 <= kk <= u.len(),
        j == i + 1 + esc(u.subrange(0, kk)).len(),
    ensures
        i + 1 + esc(u).len() < s.len(),
        j <= i + 1 + esc(u).len(),
        kk == u.len() ==> s[j] == '"',
        kk < u.len() ==> j + esc_char(u[kk]).len() <= i + 1 + esc(u).len(),
        kk < u.len() ==> (forall|t: int|
            0 <= t < esc_char(u[kk]).len() ==> s[j + t] == esc_char(u[kk])[t]),
{
    lemma_lit_at_index(s, i, u);
    lemma_esc_split(u, kk);
    let pre = u.subrange(0, kk);
    if kk == u.len() {
        assert(pre =~= u);
    } else {
        let unit = esc_char(u[kk]);
        assert(esc(u) == esc(pre) + (unit + esc(u.skip(kk + 1))));
        assert forall|t: int| 0 <= t < unit.len() implies s[j + t] == unit[t] by {
            let off = esc(pre).len() + t;
            assert(esc(u)[off] == (unit + esc(u.skip(kk + 1)))[t]);
            assert(s[i + 1 + off] == esc(u)[off]);
        }
    }
}

proof fn lemma_scan_advance(u: Seq<char>, kk: int, x: char)
    requires
        0 <= kk < u.len(),
        x == u[kk],
    ensures
        u.subrange(0, kk).push(x) == u.subrange(0, kk + 1),
        esc(u.subrange(0, kk + 1)).len() == esc(u.subrange(0, kk)).len() + esc_char(x).len(),
{
    assert(u.subrange(0, kk + 1).drop_last() =~= u.subrange(0, kk));
    assert(u.subrange(0, kk + 1).last() == u[kk]);
    assert(esc(u.subrange(0, kk + 1)) == esc(u.subrange(0, kk)) + esc_char(x));
    assert(u.subrange(0, kk).push(x) =~= u.subrange(0, kk + 1));
}

#[verifier::rlimit(50)]
fn parse_string(s: &str, i: usize) -> (r: Option<(String, usize)>)
    ensures
        r matches Some(p) ==> i < p.1 <= s@.len(),
        forall|u: Seq<char>| #![trigger lit_at(s@, i as int, u)]
            lit_at(s@, i as int, u) ==> (r matches Some(p) && p.0@ == u && p.1 as int == i
                + enc_string(u).len()),
{
    let sn = s.unicode_len();
    if i >= sn {
        proof {
            assert forall|u: Seq<char>| #![trigger lit_at(s@, i as int, u)] lit_at(s@, i as int, u) implies false by {
                assert(enc_string(u).len() >= 2);
            }
        }
        return None;
    }
    if s.get_char(i) != '"' {
        proof {
            assert forall|u: Seq<char>| #![trigger lit_at(s@, i as int, u)] lit_at(s@, i as int, u) implies false by {
                lemma_lit_at_index(s@, i as int, u);
            }
        }
        return None;
    }
    let mut acc = String::new();
    let mut j = i + 1;
    proof {
        assert forall|u: Seq<char>| #![trigger lit_at(s@, i as int, u)] lit_at(s@, i as int, u) implies (acc@.len() <= u.len()
            && acc@ == u.subrange(0, acc@.len() as int) && j as int == i + 1 + esc(
            u.subrange(0, acc@.len() as int),
        ).len()) by {
            assert(acc@ =~= u.subrange(0, 0));
        }
    }
    while j < sn
        invariant
            i < j <= sn,
            sn == s@.len(),
            forall|u: Seq<char>| #![trigger lit_at(s@, i as int, u)]
                lit_at(s@, i as int, u) ==> {
                    &&& acc@.len() <= u.len()
                    &&& acc@ == u.subrange(0, acc@.len() as int)
                    &&& j as int == i + 1 + esc(u.subrange(0, acc@.len() as int)).len()
                },
        decreases sn - j,
    {
        let ghost kk = acc@.len() as int;
        let c = s.get_char(j);
        if c == '"' {
            proof {
                assert forall|u: Seq<char>| #![trigger lit_at(s@, i as int, u)] lit_at(s@, i as int, u) implies (acc@ == u && j + 1
                    == i + enc_string(u).len()) by {
                    lemma_string_scan_step(s@, i as int, u, kk, j as int);
                    if kk < u.len() {
                        lemma_esc_char_shape(u[kk]);
                        assert(s@[j as int] == esc_char(u[kk])[0]);
                        assert(false);
                    }
                    assert(u.subrange(0, kk) =~= u);
                }
            }
            return Some((acc, j + 1));
        }
        if c == '\\' {
            proof {
                assert forall|u: Seq<char>| #![trigger lit_at(s@, i as int, u)] lit_at(s@, i as int, u) implies (kk < u.len()
                    && is_special(u[kk]) && 2 <= esc_char(u[kk]).len()) by {
                    lemma_string_scan_step(s@, i as int, u, kk, j as int);
                    if kk == u.len() {
                        assert(false);
                    }
                    lemma_esc_char_shape(u[kk]);
                    assert(s@[j as int] == esc_char(u[kk])[0]);
                }
            }
            if sn - j < 2 {
                proof {
                    assert forall|u: Seq<char>| #![trigger lit_at(s@, i as int, u)] lit_at(s@, i as int, u) implies false by {
                        lemma_string_scan_step(s@, i as int, u, kk, j as int);
                    }
                }
                return None;
            }
            let d = s.get_char(j + 1);
            proof {
                assert forall|u: Seq<char>| #![trigger lit_at(s@, i as int, u)] lit_at(s@, i as int, u) implies s@[j as int + 1]
                    == esc_char(u[kk])[1] by {
                    lemma_string_scan_step(s@, i as int, u, kk, j as int);
                }
            }
            if d == '"' || d == '\\' {
                push_char(&mut acc, d);
                proof {
                    assert forall|u: Seq<char>| #![trigger lit_at(s@, i as int, u)] lit_at(s@, i as int, u) implies (kk < u.len()
                        && u[kk] == d && acc@ == u.subrange(0, kk + 1) && j + 2 == i + 1 + esc(
                        u.subrange(0, kk + 1),
                    ).len()) by {
                        assert(kk < u.len());
                        lemma_string_scan_step(s@, i as int, u, kk, j as int);
                        assert(esc_char(u[kk])[1] == d);
                        assert(u[kk] == d);
                        lemma_scan_advance(u, kk, d);
                    }
                }
                j = j + 2;
            } else if d == 'n' {
                push_char(&mut acc, '\n');
                proof {
                    assert forall|u: Seq<char>| #![trigger lit_at(s@, i as int, u)] lit_at(s@, i as int, u) implies (kk < u.len()
                        && u[kk] == '\n' && acc@ == u.subrange(0, kk + 1) && j + 2 == i + 1 + esc(
                        u.subrange(0, kk + 1),
                    ).len()) by {
                        assert(kk < u.len());
                        lemma_string_scan_step(s@, i as int, u, kk, j as int);
                        assert(esc_char(u[kk])[1] == 'n');
                        assert(u[kk] == '\n');
                        lemma_scan_advance(u, kk, '\n');
                    }
                }
                j = j + 2;
            } else if d == 'r' {
                push_char(&mut acc, '\r');
                proof {
                    assert forall|u: Seq<char>| #![trigger lit_at(s@, i as int, u)] lit_at(s@, i as int, u) implies (kk < u.len()
                        && u[kk] == '\r' && acc@ == u.subrange(0, kk + 1) && j + 2 == i + 1 + esc(
                        u.subrange(0, kk + 1),
                    ).len()) by {
                        assert(kk < u.len());
                        lemma_string_scan_step(s@, i as int, u, kk, j as int);
                        assert(esc_char(u[kk])[1] == 'r');
                        assert(u[kk] == '\r');
                        lemma_scan_advance(u, kk, '\r');
                    }
                }
                j = j + 2;
            } else if d == 't' {
                push_char(&mut acc, '\t');
                proof {
                    assert forall|u: Seq<char>| #![trigger lit_at(s@, i as int, u)] lit_at(s@, i as int, u) implies (kk < u.len()
                        && u[kk] == '\t' && acc@ == u.subrange(0, kk + 1) && j + 2 == i + 1 + esc(
                        u.subrange(0, kk + 1),
                    ).len()) by {
                        assert(kk < u.len());
                        lemma_string_scan_step(s@, i as int, u, kk, j as int);
                        assert(esc_char(u[kk])[1] == 't');
                        assert(u[kk] == '\t');
                        lemma_scan_advance(u, kk, '\t');
                    }
                }
                j = j + 2;
            } else if d == 'u' {
                proof {
                    assert forall|u: Seq<char>| #![trigger lit_at(s@, i as int, u)] lit_at(s@, i as int, u) implies ((u[kk] as nat)
                        < 32 && esc_char(u[kk]).len() == 6 && esc_char(u[kk]) == seq![
                        '\\',
                        'u',
                        '0',
                        '0',
                        hex_char(u[kk] as nat / 16),
                        hex_char(u[kk] as nat % 16),
                    ]) by {
                        lemma_string_scan_step(s@, i as int, u, kk, j as int);
                        assert(esc_char(u[kk])[1] == 'u');
                    }
                }
                if sn - j < 6 {
                    proof {
                        assert forall|u: Seq<char>| #![trigger lit_at(s@, i as int, u)] lit_at(s@, i as int, u) implies false by {
                            lemma_string_scan_step(s@, i as int, u, kk, j as int);
                        }
                    }
                    return None;
                }
                proof {
                    assert forall|u: Seq<char>| #![trigger lit_at(s@, i as int, u)] lit_at(s@, i as int, u) implies (s@[j as int
                        + 2] == '0' && s@[j as int + 3] == '0' && s@[j as int + 4] == hex_char(
                        u[kk] as nat / 16,
                    ) && s@[j as int + 5] == hex_char(u[kk] as nat % 16)) by {
                        lemma_string_scan_step(s@, i as int, u, kk, j as int);
                    }
                }
                if s.get_char(j + 2) != '0' || s.get_char(j + 3) != '0' {
                    proof {
                        assert forall|u: Seq<char>| #![trigger lit_at(s@, i as int, u)] lit_at(s@, i as int, u) implies false by {}
                    }
                    return None;
                }
                let h1 = match hex_val(s.get_char(j + 4)) {
                    Some(v) => v,
                    None => {
                        proof {
                            assert forall|u: Seq<char>| #![trigger lit_at(s@, i as int, u)] lit_at(s@, i as int, u) implies false by {
                                assert((u[kk] as nat) / 16 < 16);
                            }
                        }
                        return None;
                    },
                };
                let h2 = match hex_val(s.get_char(j + 5)) {
                    Some(v) => v,
                    None => {
                        proof {
                            assert forall|u: Seq<char>| #![trigger lit_at(s@, i as int, u)] lit_at(s@, i as int, u) implies false by {
                                assert((u[kk] as nat) % 16 < 16);
                            }
                        }
                        return None;
                    },
                };
                let v = h1 * 16 + h2;
                proof {
                    assert forall|u: Seq<char>| #![trigger lit_at(s@, i as int, u)] lit_at(s@, i as int, u) implies (v as nat == (
                    u[kk] as nat)) by {
                        assert((u[kk] as nat) / 16 < 16 && (u[kk] as nat) % 16 < 16);
                        assert(h1 as nat == (u[kk] as nat) / 16);
                        assert(h2 as nat == (u[kk] as nat) % 16);
                        vstd::arithmetic::div_mod::lemma_fundamental_div_mod(
                            u[kk] as int,
                            16,
                        );
                    }
                }
                if v >= 32 {
                    proof {
                        assert forall|u: Seq<char>| #![trigger lit_at(s@, i as int, u)] lit_at(s@, i as int, u) implies false by {
                            assert(v as nat == (u[kk] as nat));
                        }
                    }
                    return None;
                }
                let x = ctrl_char(v);
                push_char(&mut acc, x);
                proof {
                    assert forall|u: Seq<char>| #![trigger lit_at(s@, i as int, u)] lit_at(s@, i as int, u) implies (kk < u.len()
                        && u[kk] == x && acc@ == u.subrange(0, kk + 1) && j + 6 == i + 1 + esc(
                        u.subrange(0, kk + 1),
                    ).len()) by {
                        assert(kk < u.len());
                        assert(v as nat == (u[kk] as nat));
                        assert(x as nat == (u[kk] as nat));
                        lemma_char_nat_inj(x, u[kk]);
                        lemma_scan_advance(u, kk, x);
                    }
                }
                j = j + 6;
            } else {
                proof {
                    assert forall|u: Seq<char>| #![trigger lit_at(s@, i as int, u)] lit_at(s@, i as int, u) implies false by {
                        lemma_string_scan_step(s@, i as int, u, kk, j as int);
                        assert(esc_char(u[kk])[1] == d);
                        if u[kk] == '"' || u[kk] == '\\' || u[kk] == '\n' || u[kk] == '\r'
                            || u[kk] == '\t' {
                        } else {
                            assert(esc_char(u[kk])[1] == 'u');
                        }
                    }
                }
                return None;
            }
        } else {
            push_char(&mut acc, c);
            proof {
                assert forall|u: Seq<char>| #![trigger lit_at(s@, i as int, u)] lit_at(s@, i as int, u) implies (kk < u.len()
                    && u[kk] == c && acc@ == u.subrange(0, kk + 1) && j + 1 == i + 1 + esc(
                    u.subrange(0, kk + 1),
                ).len()) by {
                    lemma_string_scan_step(s@, i as int, u, kk, j as int);
                    if kk == u.len() {
                        assert(false);
                    }
                    lemma_esc_char_shape(u[kk]);
                    assert(s@[j as int] == esc_char(u[kk])[0]);
                    if is_special(u[kk]) {
                        assert(false);
                    }
                    assert(u[kk] == c);
                    lemma_scan_advance(u, kk, c);
                }
            }
            j = j + 1;
        }
    }
    proof {
        assert forall|u: Seq<char>| #![trigger lit_at(s@, i as int, u)] lit_at(s@, i as int, u) implies false by {
            lemma_string_scan_step(s@, i as int, u, acc@.len() as int, j as int);
        }
    }
    None
}

spec fn logins_at(s: Seq<char>, i: int, ls: Seq<Seq<char>>) -> bool {
    &&& 0 <= i
    &&& i + enc_logins(ls).len() + 1 <= s.len()
    &&& s.subrange(i, i + enc_logins(ls).len() as int + 1) == enc_logins(ls) + seq![']']
}

/// Where element `el` of an encoded login list starts, relative to the list.
spec fn logins_prefix_len(ls: Seq<Seq<char>>, el: int) -> int {
    if el == 0 {
        0
    } else {
        enc_logins(ls.subrange(0, el)).len() + 1 as int
    }
}

proof fn lemma_enc_logins_mid(ls: Seq<Seq<char>>, k: int)
    requires
        0 < k < ls.len(),
    ensures
        enc_logins(ls) == enc_logins(ls.subrange(0, k)) + seq![','] + enc_logins(ls.skip(k)),
    decreases k,
{
    if k == 1 {
        lemma_enc_logins_front(ls);
        assert(ls.subrange(0, 1) =~= seq![ls[0]]);
        assert(enc_logins(ls.subrange(0, 1)) == enc_string(ls.subrange(0, 1)[0]));
        assert(enc_logins(ls) =~= enc_logins(ls.subrange(0, 1)) + seq![','] + enc_logins(
            ls.skip(1),
        ));
    } else {
        lemma_enc_logins_mid(ls, k - 1);
        let tail = ls.skip(k - 1);
        lemma_enc_logins_front(tail);
        assert(tail[0] == ls[k - 1]);
        assert(tail.skip(1) =~= ls.skip(k));
        assert(tail.len() > 1);
        assert(enc_logins(tail) == enc_string(ls[k - 1]) + seq![','] + enc_logins(ls.skip(k)));
        let tk = ls.subrange(0, k);
        assert(tk.drop_last() =~= ls.subrange(0, k - 1));
        assert(tk.last() == ls[k - 1]);
        assert(tk.len() > 1);
        assert(enc_logins(tk) == enc_logins(ls.subrange(0, k - 1)) + seq![','] + enc_string(
            ls[k - 1],
        ));
        assert(enc_logins(ls) =~= enc_logins(tk) + seq![','] + enc_logins(ls.skip(k)));
    }
}

proof fn lemma_logins_scan(s: Seq<char>, i: int, ls: Seq<Seq<char>>, el: int, j: int)
    requires
        logins_at(s, i, ls),
        0 <= el < ls.len(),
        j == i + logins_prefix_len(ls, el),
    ensures
        lit_at(s, j, ls[el]),
        j + enc_string(ls[el]).len() < s.len(),
        el + 1 < ls.len() ==> s[j + enc_string(ls[el]).len()] == ',',
        el + 1 < ls.len() ==> j + enc_string(ls[el]).len() + 1 == i + logins_prefix_len(
            ls,
            el + 1,
        ),
        el + 1 == ls.len() ==> s[j + enc_string(ls[el]).len()] == ']',
        el + 1 == ls.len() ==> j + enc_string(ls[el]).len() + 1 == i + enc_logins(ls).len() + 1,
{
    let whole = enc_logins(ls) + seq![']'];
    let ll = enc_logins(ls).len() as int;
    assert forall|t: int| 0 <= t < ll + 1 implies s[i + t] == whole[t] by {
        assert(s.subrange(i, i + ll + 1)[t] == s[i + t]);
    }
    let es = enc_string(ls[el]);
    // enc_logins(ls) == head + es + tail, with the element at offset j - i
    let head: Seq<char> = if el == 0 {
        Seq::empty()
    } else {
        enc_logins(ls.subrange(0, el)) + seq![',']
    };
    let tail: Seq<char> = if el + 1 == ls.len() {
        Seq::empty()
    } else {
        seq![','] + enc_logins(ls.skip(el + 1))
    };
    if el == 0 {
        if ls.len() == 1 {
            assert(enc_logins(ls) == es);
            assert(enc_logins(ls) =~= head + es + tail);
        } else {
            lemma_enc_logins_front(ls);
            assert(enc_logins(ls) =~= head + es + tail);
            lemma_enc_logins_mid(ls, 1);
            assert(ls.subrange(0, 1)[0] == ls[0]);
            assert(enc_logins(ls.subrange(0, 1)) == enc_string(ls.subrange(0, 1)[0]));
        }
    } else {
        lemma_enc_logins_mid(ls, el);
        let pre = ls.subrange(0, el);
        if el + 1 == ls.len() {
            assert(ls.skip(el) =~= seq![ls[el]]);
            assert(enc_logins(ls.skip(el)) == enc_string(ls.skip(el)[0]));
            assert(ls.skip(el)[0] == ls[el]);
            assert(enc_logins(ls) =~= head + es + tail);
        } else {
            lemma_enc_logins_front(ls.skip(el));
            assert(ls.skip(el)[0] == ls[el]);
            assert(ls.skip(el).skip(1) =~= ls.skip(el + 1));
            assert(ls.skip(el).len() > 1);
            assert(enc_logins(ls.skip(el)) == es + tail);
            assert(enc_logins(ls) =~= head + es + tail);
        }
    }
    if el + 1 < ls.len() {
        // prefix length bookkeeping for the next element
        let tk = ls.subrange(0, el + 1);
        if el == 0 {
            assert(tk =~= seq![ls[0]]);
            assert(enc_logins(tk) == enc_string(tk[0]));
            assert(tk[0] == ls[0]);
        } else {
            assert(tk.drop_last() =~= ls.subrange(0, el));
            assert(tk.last() == ls[el]);
            assert(tk.len() > 1);
            assert(enc_logins(tk) == enc_logins(ls.subrange(0, el)) + seq![','] + es);
        }
        assert(enc_logins(tk).len() == head.len() + es.len());
    }
    assert(head.len() == j - i);
    assert(enc_logins(ls) == head + es + tail);
    assert(lit_at(s, j, ls[el])) by {
        assert(es.len() <= ll - head.len());
        assert forall|t: int| 0 <= t < es.len() implies s[j + t] == es[t] by {
            assert(whole[head.len() + t] == (head + es + tail)[head.len() + t]);
            assert(s[i + head.len() + t] == whole[head.len() + t]);
        }
        assert(s.subrange(j, j + es.len() as int) =~= es);
    }
    let after = j - i + es.len();
    if el + 1 < ls.len() {
        assert(tail[0] == ',');
        assert(whole[after] == (head + es + tail)[after]);
        assert(s[i + after] == ',');
        let tk = ls.subrange(0, el + 1);
        if el == 0 {
            assert(enc_logins(tk).len() + 1 == after + 1);
        } else {
            assert(enc_logins(tk).len() + 1 == after + 1);
        }
    } else {
        assert(after == ll);
        assert(whole[ll] == ']');
        assert(s[i + ll] == ']');
    }
}

#[verifier::rlimit(50)]
fn parse_logins(s: &str, i: usize) -> (r: Option<(Vec<String>, usize)>)
    ensures
        r matches Some(p) ==> i < p.1 <= s@.len(),
        forall|ls: Seq<Seq<char>>| #![trigger logins_at(s@, i as int, ls)]
            logins_at(s@, i as int, ls) ==> (r matches Some(p) && p.0.deep_view() == ls
                && p.1 as int == i + enc_logins(ls).len() + 1),
{
    let sn = s.unicode_len();
    if i >= sn {
        proof {
            assert forall|ls: Seq<Seq<char>>| #![trigger logins_at(s@, i as int, ls)]
                logins_at(s@, i as int, ls) implies false by {}
        }
        return None;
    }
    let mut out: Vec<String> = Vec::new();
    if s.get_char(i) == ']' {
        proof {
            assert forall|ls: Seq<Seq<char>>| #![trigger logins_at(s@, i as int, ls)]
                logins_at(s@, i as int, ls) implies (out.deep_view() == ls && i + 1 == i
                + enc_logins(ls).len() + 1) by {
                if ls.len() > 0 {
                    lemma_logins_scan(s@, i as int, ls, 0, i as int);
                    lemma_lit_at_index(s@, i as int, ls[0]);
                    assert(false);
                }
                assert(out.deep_view() =~= ls);
            }
        }
        return Some((out, i + 1));
    }
    let mut j = i;
    proof {
        assert forall|ls: Seq<Seq<char>>| #![trigger logins_at(s@, i as int, ls)]
            logins_at(s@, i as int, ls) implies (out@.len() < ls.len() && out.deep_view()
            == ls.subrange(0, out@.len() as int) && j as int == i + logins_prefix_len(
            ls,
            out@.len() as int,
        )) by {
            if ls.len() == 0 {
                assert(s@.subrange(i as int, i + 1)[0] == s@[i as int]);
                assert(s@[i as int] == ']');
                assert(false);
            }
            assert(out.deep_view() =~= ls.subrange(0, 0));
        }
    }
    while j < sn
        invariant
            i <= j <= sn,
            sn == s@.len(),
            forall|ls: Seq<Seq<char>>| #![trigger logins_at(s@, i as int, ls)]
                logins_at(s@, i as int, ls) ==> {
                    &&& out@.len() < ls.len()
                    &&& out.deep_view() == ls.subrange(0, out@.len() as int)
                    &&& j as int == i + logins_prefix_len(ls, out@.len() as int)
                },
        decreases sn - j,
    {
        let ghost el = out@.len() as int;
        let (login, j2) = match parse_string(s, j) {
            Some(p) => p,
            None => {
                proof {
                    assert forall|ls: Seq<Seq<char>>| #![trigger logins_at(s@, i as int, ls)]
                        logins_at(s@, i as int, ls) implies false by {
                        lemma_logins_scan(s@, i as int, ls, el, j as int);
                    }
                }
                return None;
            },
        };
        proof {
            assert forall|ls: Seq<Seq<char>>| #![trigger logins_at(s@, i as int, ls)]
                logins_at(s@, i as int, ls) implies (login@ == ls[el] && j2 as int == j
                + enc_string(ls[el]).len() && j2 < sn) by {
                lemma_logins_scan(s@, i as int, ls, el, j as int);
                assert(lit_at(s@, j as int, ls[el]));
            }
        }
        out.push(login);
        proof {
            assert forall|ls: Seq<Seq<char>>| #![trigger logins_at(s@, i as int, ls)]
                logins_at(s@, i as int, ls) implies (out.deep_view() == ls.subrange(
                0,
                el + 1,
            )) by {
                assert(out.deep_view() =~= ls.subrange(0, el + 1));
            }
        }
        if j2 >= sn {
            proof {
                assert forall|ls: Seq<Seq<char>>| #![trigger logins_at(s@, i as int, ls)]
                    logins_at(s@, i as int, ls) implies false by {
                    lemma_logins_scan(s@, i as int, ls, el, j as int);
                }
            }
            return None;
        }
        let c = s.get_char(j2);
        if c == ',' {
            proof {
                assert forall|ls: Seq<Seq<char>>| #![trigger logins_at(s@, i as int, ls)]
                    logins_at(s@, i as int, ls) implies (el + 1 < ls.len() && j2 + 1 == i
                    + logins_prefix_len(ls, el + 1)) by {
                    lemma_logins_scan(s@, i as int, ls, el, j as int);
                    if el + 1 == ls.len() {
                        assert(s@[j2 as int] == ']');
                        assert(false);
                    }
                }
            }
            j = j2 + 1;
        } else if c == ']' {
            proof {
                assert forall|ls: Seq<Seq<char>>| #![trigger logins_at(s@, i as int, ls)]
                    logins_at(s@, i as int, ls) implies (out.deep_view() == ls && j2 + 1 == i
                    + enc_logins(ls).len() + 1) by {
                    lemma_logins_scan(s@, i as int, ls, el, j as int);
                    if el + 1 < ls.len() {
                        assert(s@[j2 as int] == ',');
                        assert(false);
                    }
                    assert(ls.subrange(0, el + 1) =~= ls);
                }
            }
            return Some((out, j2 + 1));
        } else {
            proof {
                assert forall|ls: Seq<Seq<char>>| #![trigger logins_at(s@, i as int, ls)]
                    logins_at(s@, i as int, ls) implies false by {
                    lemma_logins_scan(s@, i as int, ls, el, j as int);
                    if el + 1 < ls.len() {
                        assert(s@[j2 as int] == ',');
                    } else {
                        assert(s@[j2 as int] == ']');
                    }
                }
            }
            return None;
        }
    }
    proof {
        assert forall|ls: Seq<Seq<char>>| #![trigger logins_at(s@, i as int, ls)]
            logins_at(s@, i as int, ls) implies false by {
            lemma_logins_scan(s@, i as int, ls, out@.len() as int, j as int);
        }
    }
    None
}

#[verifier::rlimit(60)]
fn parse_config_raw(s: &str) -> (r: Option<Config>)
    ensures
        forall|c0: ConfigView| #![trigger enc_config(c0)]
            s@ == enc_config(c0) ==> (r matches Some(c) && c@ == c0),
{
    proof {
        reveal_strlit("{\"url\":");
        reveal_strlit(",\"twitchLogins\":[");
        reveal_strlit("],\"password\":");
        reveal_strlit(",\"password\":");
        reveal_strlit("}");
        assert forall|c0: ConfigView| #![trigger enc_config(c0)] s@ == enc_config(c0) implies {
            let eu = enc_string(c0.url);
            let el = enc_logins(c0.twitch_logins);
            let ep = enc_string(c0.password);
            let a = 7 + eu.len() as int;
            let b = a + 17 + el.len() as int + 1;
            let e = b + 12 + ep.len() as int;
            &&& s@.subrange(0, 7) == "{\"url\":"@
            &&& lit_at(s@, 7, c0.url)
            &&& s@.subrange(a, a + 17) == ",\"twitchLogins\":["@
            &&& logins_at(s@, a + 17, c0.twitch_logins)
            &&& s@.subrange(b, b + 12) == ",\"password\":"@
            &&& lit_at(s@, b + 12, c0.password)
            &&& s@.subrange(e, e + 1) == "}"@
            &&& s@.len() == e + 1
        } by {
            let eu = enc_string(c0.url);
            let el = enc_logins(c0.twitch_logins);
            let ep = enc_string(c0.password);
            let p0 = "{\"url\":"@;
            let p1 = ",\"twitchLogins\":["@;
            let p2t = ",\"password\":"@;
            let p3 = "}"@;
            assert("],\"password\":"@ =~= seq![']'] + p2t);
            assert(s@ =~= Seq::empty() + p0 + (eu + p1 + el + (seq![']'] + p2t) + ep + p3));
            lemma_subrange_of_concat(s@, Seq::empty(), p0, eu + p1 + el + (seq![']'] + p2t) + ep + p3);
            assert(s@ =~= p0 + eu + (p1 + el + (seq![']'] + p2t) + ep + p3));
            lemma_subrange_of_concat(s@, p0, eu, p1 + el + (seq![']'] + p2t) + ep + p3);
            assert(s@ =~= (p0 + eu) + p1 + (el + (seq![']'] + p2t) + ep + p3));
            lemma_subrange_of_concat(s@, p0 + eu, p1, el + (seq![']'] + p2t) + ep + p3);
            assert(s@ =~= (p0 + eu + p1) + (el + seq![']']) + (p2t + ep + p3));
            lemma_subrange_of_concat(s@, p0 + eu + p1, el + seq![']'], p2t + ep + p3);
            assert(s@ =~= (p0 + eu + p1 + el + seq![']']) + p2t + (ep + p3));
            lemma_subrange_of_concat(s@, p0 + eu + p1 + el + seq![']'], p2t, ep + p3);
            assert(s@ =~= (p0 + eu + p1 + el + seq![']'] + p2t) + ep + p3);
            lemma_subrange_of_concat(s@, p0 + eu + p1 + el + seq![']'] + p2t, ep, p3);
            assert(s@ =~= (p0 + eu + p1 + el + seq![']'] + p2t + ep) + p3 + Seq::empty());
            lemma_subrange_of_concat(s@, p0 + eu + p1 + el + seq![']'] + p2t + ep, p3, Seq::empty());
            assert(lit_at(s@, 7, c0.url));
            assert(logins_at(s@, 7 + eu.len() as int + 17, c0.twitch_logins));
            assert(lit_at(s@, 7 + eu.len() as int + 17 + el.len() as int + 1 + 12, c0.password));
        }
    }
    let sn = s.unicode_len();
    let i1 = match eat_lit(s, 0, "{\"url\":") {
        Some(i) => i,
        None => {
            proof {
                assert forall|c0: ConfigView| #![trigger enc_config(c0)]
                    s@ == enc_config(c0) implies false by {}
            }
            return None;
        },
    };
    let (url, i2) = match parse_string(s, i1) {
        Some(p) => p,
        None => {
            proof {
                assert forall|c0: ConfigView| #![trigger enc_config(c0)]
                    s@ == enc_config(c0) implies false by {
                    assert(lit_at(s@, i1 as int, c0.url));
                }
            }
            return None;
        },
    };
    let i3 = match eat_lit(s, i2, ",\"twitchLogins\":[") {
        Some(i) => i,
        None => {
            proof {
                assert forall|c0: ConfigView| #![trigger enc_config(c0)]
                    s@ == enc_config(c0) implies false by {
                    assert(lit_at(s@, i1 as int, c0.url));
                    assert(i2 as int == 7 + enc_string(c0.url).len());
                }
            }
            return None;
        },
    };
    let (twitch_logins, i4) = match parse_logins(s, i3) {
        Some(p) => p,
        None => {
            proof {
                assert forall|c0: ConfigView| #![trigger enc_config(c0)]
                    s@ == enc_config(c0) implies false by {
                    assert(lit_at(s@, i1 as int, c0.url));
                    assert(i2 as int == 7 + enc_string(c0.url).len());
                    assert(logins_at(s@, i3 as int, c0.twitch_logins));
                }
            }
            return None;
        },
    };
    let i5 = match eat_lit(s, i4, ",\"password\":") {
        Some(i) => i,
        None => {
            proof {
                assert forall|c0: ConfigView| #![trigger enc_config(c0)]
                    s@ == enc_config(c0) implies false by {
                    assert(lit_at(s@, i1 as int, c0.url));
                    assert(i2 as int == 7 + enc_string(c0.url).len());
                    assert(logins_at(s@, i3 as int, c0.twitch_logins));
                    assert(i4 as int == i3 + enc_logins(c0.twitch_logins).len() + 1);
                }
            }
            return None;
        },
    };
    let (password, i6) = match parse_string(s, i5) {
        Some(p) => p,
        None => {
            proof {
                assert forall|c0: ConfigView| #![trigger enc_config(c0)]
                    s@ == enc_config(c0) implies false by {
                    assert(lit_at(s@, i1 as int, c0.url));
                    assert(i2 as int == 7 + enc_string(c0.url).len());
                    assert(logins_at(s@, i3 as int, c0.twitch_logins));
                    assert(i4 as int == i3 + enc_logins(c0.twitch_logins).len() + 1);
                    assert(lit_at(s@, i5 as int, c0.password));
                }
            }
            return None;
        },
    };
    let i7 = match eat_lit(s, i6, "}") {
        Some(i) => i,
        None => {
            proof {
                assert forall|c0: ConfigView| #![trigger enc_config(c0)]
                    s@ == enc_config(c0) implies false by {
                    assert(lit_at(s@, i1 as int, c0.url));
                    assert(i2 as int == 7 + enc_string(c0.url).len());
                    assert(logins_at(s@, i3 as int, c0.twitch_logins));
                    assert(i4 as int == i3 + enc_logins(c0.twitch_logins).len() + 1);
                    assert(lit_at(s@, i5 as int, c0.password));
                    assert(i6 as int == i5 + enc_string(c0.password).len());
                }
            }
            return None;
        },
    };
    if i7 != sn {
        proof {
            assert forall|c0: ConfigView| #![trigger enc_config(c0)]
                s@ == enc_config(c0) implies false by {
                assert(lit_at(s@, i1 as int, c0.url));
                assert(i2 as int == 7 + enc_string(c0.url).len());
                assert(logins_at(s@, i3 as int, c0.twitch_logins));
                assert(i4 as int == i3 + enc_logins(c0.twitch_logins).len() + 1);
                assert(lit_at(s@, i5 as int, c0.password));
                assert(i6 as int == i5 + enc_string(c0.password).len());
                assert(i7 as int == s@.len());
            }
        }
        return None;
    }
    let r = Config { url, twitch_logins, password };
    proof {
        assert forall|c0: ConfigView| #![trigger enc_config(c0)] s@ == enc_config(c0) implies r@
            == c0 by {
            assert(lit_at(s@, i1 as int, c0.url));
            assert(i2 as int == 7 + enc_string(c0.url).len());
            assert(logins_at(s@, i3 as int, c0.twitch_logins));
            assert(i4 as int == i3 + enc_logins(c0.twitch_logins).len() + 1);
            assert(lit_at(s@, i5 as int, c0.password));
            assert(r@.url == c0.url);
            assert(r@.twitch_logins == c0.twitch_logins);
            assert(r@.password == c0.password);
            assert(r@ =~= c0);
        }
    }
    Some(r)
}

/// Parses persisted configuration text. Success is exact and total over the
/// canonical format: a `Some(c)` result is returned only when the text is,
/// character for character, the canonical encoding of `c` — a load can never
/// yield a value other than the one whose encoding was written — and every
/// canonical encoding is accepted, so loading what `set_config` persisted
/// always succeeds.
pub fn parse_config(s: &str) -> (r: Option<Config>)
    ensures
        r matches Some(c) ==> s@ == enc_config(c@),
        (exists|c0: ConfigView| s@ == enc_config(c0)) ==> r is Some,
{
    match parse_config_raw(s) {
        None => {
            proof {
                if exists|c0: ConfigView| s@ == enc_config(c0) {
                    let c0 = choose|c0: ConfigView| s@ == enc_config(c0);
                    assert(false);
                }
            }
            None
        },
        Some(c) => {
            let e = encode_config(&c);
            if e == s.to_owned() {
                Some(c)
            } else {
                proof {
                    if exists|c0: ConfigView| s@ == enc_config(c0) {
                        let c0 = choose|c0: ConfigView| s@ == enc_config(c0);
                        assert(c@ == c0);
                        assert(false);
                    }
                }
                None
            }
        },
    }
}

proof fn lemma_prepend_cancel(a: Seq<char>, x: Seq<char>, y: Seq<char>)
    requires
        a + x == a + y,
    ensures
        x == y,
{
    assert((a + x).len() == a.len() + x.len());
    assert((a + y).len() == a.len() + y.len());
    assert(x.len() == y.len());
    assert forall|i: int| 0 <= i < x.len() implies x[i] == y[i] by {
        assert((a + x)[a.len() + i] == x[i]);
        assert((a + y)[a.len() + i] == y[i]);
    }
    assert(x =~= y);
}

proof fn lemma_esc_front(s: Seq<char>)
    requires
        s.len() > 0,
    ensures
        esc(s) == esc_char(s[0]) + esc(s.skip(1)),
    decreases s.len(),
{
    if s.len() == 1 {
        assert(s.drop_last() =~= Seq::<char>::empty());
        assert(s.skip(1) =~= Seq::<char>::empty());
        assert(esc(s) =~= esc_char(s[0]) + esc(s.skip(1)));
    } else {
        let d = s.drop_last();
        lemma_esc_front(d);
        assert(s.skip(1).drop_last() =~= d.skip(1));
        assert(s.skip(1).last() == s.last());
        assert(esc(s.skip(1)) == esc(d.skip(1)) + esc_char(s.last()));
        assert(esc(s) == esc(d) + esc_char(s.last()));
        assert(d[0] == s[0]);
        assert(esc(s) =~= esc_char(s[0]) + esc(s.skip(1)));
    }
}

/// Whether [`esc_char`] writes `c` as an escape rather than as itself.
spec fn is_special(c: char) -> bool {
    c == '"' || c == '\\' || (c as nat) < 32
}

proof fn lemma_esc_char_shape(c: char)
    ensures
        esc_char(c).len() > 0,
        esc_char(c)[0] != '"',
        is_special(c) ==> esc_char(c)[0] == '\\',
        !is_special(c) ==> esc_char(c) == seq![c],
{
}

proof fn lemma_esc_unamb(u1: Seq<char>, u2: Seq<char>, t1: Seq<char>, t2: Seq<char>)
    requires
        esc(u1) + t1 == esc(u2) + t2,
        t1.len() > 0,
        t2.len() > 0,
        t1[0] == '"',
        t2[0] == '"',
    ensures
        u1 == u2,
        t1 == t2,
    decreases u1.len(),
{
    let l1 = esc(u1) + t1;
    let l2 = esc(u2) + t2;
    if u1.len() == 0 && u2.len() == 0 {
        assert(l1 =~= t1);
        assert(l2 =~= t2);
        assert(u1 =~= u2);
        assert(t1 =~= t2);
    } else if u1.len() == 0 {
        lemma_esc_front(u2);
        lemma_esc_char_shape(u2[0]);
        assert(l1 =~= t1);
        assert(l1[0] == '"');
        assert(l2 =~= esc_char(u2[0]) + (esc(u2.skip(1)) + t2));
        assert(l2[0] == esc_char(u2[0])[0]);
        assert(false);
    } else if u2.len() == 0 {
        lemma_esc_front(u1);
        lemma_esc_char_shape(u1[0]);
        assert(l2 =~= t2);
        assert(l2[0] == '"');
        assert(l1 =~= esc_char(u1[0]) + (esc(u1.skip(1)) + t1));
        assert(l1[0] == esc_char(u1[0])[0]);
        assert(false);
    } else {
        let c1 = u1[0];
        let c2 = u2[0];
        let e1 = esc_char(c1);
        let e2 = esc_char(c2);
        lemma_esc_front(u1);
        lemma_esc_front(u2);
        lemma_esc_char_shape(c1);
        lemma_esc_char_shape(c2);
        let r1 = esc(u1.skip(1)) + t1;
        let r2 = esc(u2.skip(1)) + t2;
        assert(l1 =~= e1 + r1);
        assert(l2 =~= e2 + r2);
        assert((e1 + r1)[0] == e1[0]);
        assert((e2 + r2)[0] == e2[0]);
        assert(e1[0] == e2[0]);
        if !is_special(c1) && !is_special(c2) {
            assert(e1 =~= e2);
        } else if is_special(c1) != is_special(c2) {
            assert(false);
        } else {
            assert(e1.len() >= 2 && e2.len() >= 2);
            assert((e1 + r1)[1] == e1[1]);
            assert((e2 + r2)[1] == e2[1]);
            assert(e1[1] == e2[1]);
            if e1[1] == 'u' {
                assert(e1.len() == 6 && e2.len() == 6);
                assert forall|k: int| 0 <= k < 6 implies e1[k] == e2[k] by {
                    assert((e1 + r1)[k] == e1[k]);
                    assert((e2 + r2)[k] == e2[k]);
                }
                assert(e1 =~= e2);
            } else {
                assert(e1.len() == 2 && e2.len() == 2);
                assert(e1 =~= e2);
            }
        }
        lemma_esc_char_inj(c1, c2);
        assert(c1 == c2);
        assert(e1 == e2);
        assert(e1 + r1 == e1 + r2);
        lemma_prepend_cancel(e1, r1, r2);
        lemma_esc_unamb(u1.skip(1), u2.skip(1), t1, t2);
        assert(u1.skip(1) =~= u2.skip(1));
        assert(u1.len() == u2.len());
        assert forall|i: int| 0 <= i < u1.len() implies u1[i] == u2[i] by {
            if i > 0 {
                assert(u1.skip(1)[i - 1] == u1[i]);
                assert(u2.skip(1)[i - 1] == u2[i]);
            }
        }
        assert(u1 =~= u2);
    }
}

proof fn lemma_esc_char_inj(c1: char, c2: char)
    requires
        esc_char(c1) == esc_char(c2),
    ensures
        c1 == c2,
{
    let e1 = esc_char(c1);
    let e2 = esc_char(c2);
    if is_special(c1) && is_special(c2) {
        if e1[1] == 'u' {
            assert((c1 as nat) < 32 && (c2 as nat) < 32);
            assert(hex_char(c1 as nat / 16) == hex_char(c2 as nat / 16));
            assert(hex_char(c1 as nat % 16) == hex_char(c2 as nat % 16));
            assert(c1 as nat / 16 == c2 as nat / 16);
            assert(c1 as nat % 16 == c2 as nat % 16);
            vstd::arithmetic::div_mod::lemma_fundamental_div_mod(c1 as int, 16);
            vstd::arithmetic::div_mod::lemma_fundamental_div_mod(c2 as int, 16);
            assert(c1 as nat == c2 as nat);
            assert(c1 == c2);
        } else {
            assert(c1 == c2);
        }
    } else if !is_special(c1) && !is_special(c2) {
        assert(e1[0] == c1 && e2[0] == c2);
        assert(c1 == c2);
    } else {
        assert(e1.len() != e2.len());
        assert(false);
    }
}

proof fn lemma_enc_string_unamb(u1: Seq<char>, u2: Seq<char>, t1: Seq<char>, t2: Seq<char>)
    requires
        enc_string(u1) + t1 == enc_string(u2) + t2,
    ensures
        u1 == u2,
        t1 == t2,
{
    let q = seq!['"'];
    assert(enc_string(u1) + t1 =~= q + (esc(u1) + (q + t1)));
    assert(enc_string(u2) + t2 =~= q + (esc(u2) + (q + t2)));
    lemma_prepend_cancel(q, esc(u1) + (q + t1), esc(u2) + (q + t2));
    lemma_esc_unamb(u1, u2, q + t1, q + t2);
    lemma_prepend_cancel(q, t1, t2);
}

proof fn lemma_enc_logins_front(ls: Seq<Seq<char>>)
    requires
        ls.len() > 0,
    ensures
        ls.len() == 1 ==> enc_logins(ls) == enc_string(ls[0]),
        ls.len() > 1 ==> enc_logins(ls) == enc_string(ls[0]) + seq![','] + enc_logins(ls.skip(1)),
    decreases ls.len(),
{
    if ls.len() <= 2 {
        if ls.len() == 2 {
            assert(ls.drop_last() =~= seq![ls[0]]);
            assert(ls.skip(1) =~= seq![ls[1]]);
            assert(enc_logins(ls.drop_last()) == enc_string(ls.drop_last()[0]));
            assert(ls.drop_last()[0] == ls[0]);
            assert(enc_logins(ls.skip(1)) == enc_string(ls.skip(1)[0]));
            assert(ls.skip(1)[0] == ls[1]);
            assert(enc_logins(ls) == enc_logins(ls.drop_last()) + seq![','] + enc_string(ls.last()));
            assert(enc_logins(ls) =~= enc_string(ls[0]) + seq![','] + enc_logins(ls.skip(1)));
        }
    } else {
        let d = ls.drop_last();
        lemma_enc_logins_front(d);
        assert(ls.skip(1).drop_last() =~= d.skip(1));
        assert(ls.skip(1).last() == ls.last());
        assert(ls.skip(1).len() > 1);
        assert(enc_logins(ls.skip(1)) == enc_logins(d.skip(1)) + seq![','] + enc_string(ls.last()));
        assert(enc_logins(ls) == enc_logins(d) + seq![','] + enc_string(ls.last()));
        assert(d[0] == ls[0]);
        if d.len() == 1 {
            assert(ls.skip(1).len() == 1);
            assert(enc_logins(ls.skip(1)) =~= enc_string(ls[1]));
            assert(enc_logins(ls) =~= enc_string(ls[0]) + seq![','] + enc_logins(ls.skip(1)));
        } else {
            assert(enc_logins(d) == enc_string(d[0]) + seq![','] + enc_logins(d.skip(1)));
            assert(enc_logins(ls) =~= enc_string(ls[0]) + seq![','] + enc_logins(ls.skip(1)));
        }
    }
}

proof fn lemma_enc_logins_unamb(ls1: Seq<Seq<char>>, ls2: Seq<Seq<char>>, t1: Seq<char>, t2: Seq<char>)
    requires
        enc_logins(ls1) + t1 == enc_logins(ls2) + t2,
        t1.len() > 0,
        t2.len() > 0,
        t1[0] == ']',
        t2[0] == ']',
    ensures
        ls1 == ls2,
        t1 == t2,
    decreases ls1.len(),
{
    let l1 = enc_logins(ls1) + t1;
    let l2 = enc_logins(ls2) + t2;
    if ls1.len() == 0 && ls2.len() == 0 {
        assert(l1 =~= t1);
        assert(l2 =~= t2);
        assert(ls1 =~= ls2);
        assert(t1 =~= t2);
    } else if ls1.len() == 0 {
        lemma_enc_logins_front(ls2);
        assert(l1 =~= t1);
        if ls2.len() == 1 {
            assert(l2 =~= enc_string(ls2[0]) + t2);
        } else {
            assert(l2 =~= enc_string(ls2[0]) + (seq![','] + enc_logins(ls2.skip(1)) + t2));
        }
        assert(l2[0] == '"');
        assert(false);
    } else if ls2.len() == 0 {
        lemma_enc_logins_front(ls1);
        assert(l2 =~= t2);
        if ls1.len() == 1 {
            assert(l1 =~= enc_string(ls1[0]) + t1);
        } else {
            assert(l1 =~= enc_string(ls1[0]) + (seq![','] + enc_logins(ls1.skip(1)) + t1));
        }
        assert(l1[0] == '"');
        assert(false);
    } else {
        lemma_enc_logins_front(ls1);
        lemma_enc_logins_front(ls2);
        let r1 = if ls1.len() == 1 { t1 } else { seq![','] + enc_logins(ls1.skip(1)) + t1 };
        let r2 = if ls2.len() == 1 { t2 } else { seq![','] + enc_logins(ls2.skip(1)) + t2 };
        assert(l1 =~= enc_string(ls1[0]) + r1);
        assert(l2 =~= enc_string(ls2[0]) + r2);
        lemma_enc_string_unamb(ls1[0], ls2[0], r1, r2);
        if ls1.len() == 1 && ls2.len() == 1 {
            assert(ls1 =~= ls2);
        } else if ls1.len() == 1 {
            assert(r2[0] == ',');
            assert(r1[0] == ']');
            assert(false);
        } else if ls2.len() == 1 {
            assert(r1[0] == ',');
            assert(r2[0] == ']');
            assert(false);
        } else {
            assert(r1 =~= seq![','] + (enc_logins(ls1.skip(1)) + t1));
            assert(r2 =~= seq![','] + (enc_logins(ls2.skip(1)) + t2));
            lemma_prepend_cancel(
                seq![','],
                enc_logins(ls1.skip(1)) + t1,
                enc_logins(ls2.skip(1)) + t2,
            );
            lemma_enc_logins_unamb(ls1.skip(1), ls2.skip(1), t1, t2);
            assert(ls1.skip(1) =~= ls2.skip(1));
            assert forall|i: int| 0 <= i < ls1.len() implies ls1[i] == ls2[i] by {
                if i > 0 {
                    assert(ls1.skip(1)[i - 1] == ls1[i]);
                    assert(ls2.skip(1)[i - 1] == ls2[i]);
                }
            }
            assert(ls1 =~= ls2);
        }
    }
}

/// The canonical encoding is one-to-one: two configurations with the same
/// persisted text are the same record. Together with the contract of
/// [`parse_config`] — a load succeeds only on the exact encoding of what it
/// returns — a configuration written by `set_config` and read back after a
/// restart is deep-equal to the one that was written.
pub proof fn lemma_enc_config_injective(a: ConfigView, b: ConfigView)
    requires
        enc_config(a) == enc_config(b),
    ensures
        a == b,
{
    let p0 = "{\"url\":"@;
    let p1 = ",\"twitchLogins\":["@;
    let p2 = "],\"password\":"@;
    let p3 = seq!['}'];
    reveal_strlit("{\"url\":");
    reveal_strlit(",\"twitchLogins\":[");
    reveal_strlit("],\"password\":");
    let xa = enc_string(a.url) + (p1 + (enc_logins(a.twitch_logins) + (p2 + (enc_string(a.password) + p3))));
    let xb = enc_string(b.url) + (p1 + (enc_logins(b.twitch_logins) + (p2 + (enc_string(b.password) + p3))));
    assert(enc_config(a) =~= p0 + xa);
    assert(enc_config(b) =~= p0 + xb);
    lemma_prepend_cancel(p0, xa, xb);
    let ya = p1 + (enc_logins(a.twitch_logins) + (p2 + (enc_string(a.password) + p3)));
    let yb = p1 + (enc_logins(b.twitch_logins) + (p2 + (enc_string(b.password) + p3)));
    lemma_enc_string_unamb(a.url, b.url, ya, yb);
    lemma_prepend_cancel(
        p1,
        enc_logins(a.twitch_logins) + (p2 + (enc_string(a.password) + p3)),
        enc_logins(b.twitch_logins) + (p2 + (enc_string(b.password) + p3)),
    );
    let za = p2 + (enc_string(a.password) + p3);
    let zb = p2 + (enc_string(b.password) + p3);
    assert(za[0] == ']' && zb[0] == ']');
    lemma_enc_logins_unamb(a.twitch_logins, b.twitch_logins, za, zb);
    lemma_prepend_cancel(p2, enc_string(a.password) + p3, enc_string(b.password) + p3);
    lemma_enc_string_unamb(a.password, b.password, p3, p3);
    assert(a =~= b);
}

/// The configuration round trip over durable storage: if the text on disk is
/// what `set_config` persisted for `written`, and loading that text succeeds
/// (so by the contract of [`parse_config`] the text is the canonical encoding
/// of `loaded`), then the loaded record is deep-equal to the written one.
pub proof fn lemma_config_round_trip(written: ConfigView, file: Seq<char>, loaded: ConfigView)
    requires
        file == enc_config(written),
        file == enc_config(loaded),
    ensures
        loaded == written,
{
    lemma_enc_config_injective(loaded, written);
}

/// `esc` distributes over concatenation.
proof fn lemma_esc_concat(a: Seq<char>, b: Seq<char>)
    ensures
        esc(a + b) == esc(a) + esc(b),
    decreases b.len(),
{
    if b.len() == 0 {
        assert(a + b =~= a);
        assert(esc(a) + esc(b) =~= esc(a));
    } else {
        lemma_esc_concat(a, b.drop_last());
        assert((a + b).drop_last() =~= a + b.drop_last());
        assert((a + b).last() == b.last());
        assert(esc(a + b) == esc(a + b.drop_last()) + esc_char(b.last()));
        assert(esc(a + b) =~= esc(a) + esc(b));
    }
}

/// `s` carries the JSON string literal of `u` starting at position `i`.
spec fn lit_at(s: Seq<char>, i: int, u: Seq<char>) -> bool {
    &&& 0 <= i
    &&& i + enc_string(u).len() <= s.len()
    &&& s.subrange(i, i + enc_string(u).len() as int) == enc_string(u)
}

/// What [`lit_at`] says of the individual characters of `s`.
proof fn lemma_lit_at_index(s: Seq<char>, i: int, u: Seq<char>)
    requires
        lit_at(s, i, u),
    ensures
        s[i] == '"',
        s[i + 1 + esc(u).len()] == '"',
        forall|t: int| 0 <= t < esc(u).len() ==> s[i + 1 + t] == esc(u)[t],
{
    let e = enc_string(u);
    assert(e.len() == esc(u).len() + 2);
    assert forall|t: int| 0 <= t < e.len() implies s[i + t] == e[t] by {
        assert(s.subrange(i, i + e.len() as int)[t] == s[i + t]);
    }
    assert(e[0] == '"');
    assert(e[esc(u).len() as int + 1] == '"');
    assert forall|t: int| 0 <= t < esc(u).len() implies s[i + 1 + t] == esc(u)[t] by {
        assert(e[1 + t] == esc(u)[t]);
    }
}

/// Where the escape body of `u` stands after `k` characters of `u`.
proof fn lemma_esc_split(u: Seq<char>, k: int)
    requires
        0 <= k <= u.len(),
    ensures
        esc(u) == esc(u.subrange(0, k)) + esc(u.skip(k)),
        esc(u.subrange(0, k)).len() <= esc(u).len(),
        k < u.len() ==> esc(u.skip(k)) == esc_char(u[k]) + esc(u.skip(k + 1)),
{
    assert(u.subrange(0, k) + u.skip(k) =~= u);
    lemma_esc_concat(u.subrange(0, k), u.skip(k));
    if k < u.len() {
        lemma_esc_front(u.skip(k));
        assert(u.skip(k)[0] == u[k]);
        assert(u.skip(k).skip(1) =~= u.skip(k + 1));
    }
}

} // verus!
