//! The config manager: one shared configuration record with snapshot reads
//! and replace-and-persist writes. The manager owns the in-memory value; the
//! caller owns the durable write and performs it atomically (write aside,
//! then rename) with the text this module hands out.

use vstd::prelude::*;
use crate::codec::{enc_config, encode_config};
use crate::data::{Config, ConfigView};

verus! {

/// Owns the current configuration.
pub struct ConfigManager {
    config: Config,
}

impl View for ConfigManager {
    type V = ConfigView;

    closed spec fn view(&self) -> ConfigView {
        self.config@
    }
}

impl ConfigManager {
    /// Starts from a configuration already loaded from durable storage; a
    /// missing or malformed file is the caller's fatal startup error, so no
    /// manager ever exists without a fully-formed value.
    pub fn new(config: Config) -> (r: ConfigManager)
        ensures
            r@ == config@,
    {
        ConfigManager { config }
    }

    /// A snapshot copy of the current configuration: a caller never observes
    /// a partial write, and later writes do not reach into the copy.
    pub fn get_config(&self) -> (r: Config)
        ensures
            r@ == self@,
    {
        self.config.clone()
    }

    /// Replaces the in-memory configuration and returns the canonical text
    /// to persist. The in-memory replace itself never fails; a caller whose
    /// durable write fails must report that memory and disk have diverged
    /// rather than claim success.
    pub fn set_config(&mut self, config: Config) -> (persist: String)
        ensures
            final(self)@ == config@,
            persist@ == enc_config(config@),
    {
        let persist = encode_config(&config);
        self.config = config;
        persist
    }
}

/// Whether `c` is a decimal digit.
pub open spec fn is_digit(c: char) -> bool {
    48 <= c as nat <= 57
}

/// The value of a decimal digit (meaningful under [`is_digit`]).
pub open spec fn digit_val(c: char) -> nat {
    ((c as int) - 48) as nat
}

/// Every character of `s` is a decimal digit.
pub open spec fn all_digits(s: Seq<char>) -> bool {
    forall|i: int| 0 <= i < s.len() ==> is_digit(s[i])
}

/// The number a string of decimal digits denotes (leading zeros allowed).
pub open spec fn digits_val(s: Seq<char>) -> nat
    decreases s.len(),
{
    if s.len() == 0 {
        0
    } else {
        digits_val(s.drop_last()) * 10 + digit_val(s.last())
    }
}

/// Some character of `s` is a colon.
pub open spec fn has_colon(s: Seq<char>) -> bool {
    exists|i: int| 0 <= i < s.len() && s[i] == ':'
}

/// The index of the first colon of `s` (meaningful under [`has_colon`]).
pub open spec fn first_colon(s: Seq<char>) -> int {
    choose|k: int|
        0 <= k < s.len() && s[k] == ':' && (forall|j: int| 0 <= j < k ==> s[j] != ':')
}

/// What a `host:port` listen address splits into: the part before the first
/// colon, and the port the digits after that colon denote (leading zeros
/// allowed, value at most 65535). Anything else is rejected.
pub open spec fn spec_split_host_port(url: Seq<char>) -> Option<(Seq<char>, u16)> {
    if !has_colon(url) {
        None
    } else {
        let k = first_colon(url);
        let rest = url.skip(k + 1);
        if rest.len() > 0 && all_digits(rest) && digits_val(rest) <= 65535 {
            Some((url.take(k), digits_val(rest) as u16))
        } else {
            None
        }
    }
}

proof fn lemma_digits_prefix(s: Seq<char>, j: int)
    requires
        0 <= j <= s.len(),
    ensures
        digits_val(s.subrange(0, j)) <= digits_val(s),
    decreases s.len() - j,
{
    if j == s.len() {
        assert(s.subrange(0, j) =~= s);
    } else {
        lemma_digits_prefix(s, j + 1);
        assert(s.subrange(0, j + 1).drop_last() =~= s.subrange(0, j));
        assert(s.subrange(0, j + 1).last() == s[j]);
        assert(digits_val(s.subrange(0, j + 1)) == digits_val(s.subrange(0, j)) * 10
            + digit_val(s[j]));
    }
}

/// Splits a `host:port` listen address at the first colon: exactly the
/// addresses [`spec_split_host_port`] accepts are split, into exactly the
/// host and port it names.
pub fn split_host_port(url: &str) -> (r: Option<(String, u16)>)
    ensures
        match r {
            Some(p) => spec_split_host_port(url@) == Some((p.0@, p.1)),
            None => spec_split_host_port(url@) is None,
        },
{
    let n = url.unicode_len();
    let mut k: usize = 0;
    while k < n
        invariant
            k <= n,
            n == url@.len(),
            forall|i: int| 0 <= i < k ==> url@[i] != ':',
        decreases n - k,
    {
        if url.get_char(k) == ':' {
            proof {
                assert(has_colon(url@));
                let kk = first_colon(url@);
                assert(0 <= kk < url@.len() && url@[kk] == ':' && (forall|j: int|
                    0 <= j < kk ==> url@[j] != ':'));
                assert(kk == k as int) by {
                    if kk < k as int {
                        assert(url@[kk] != ':');
                    } else if kk > k as int {
                        assert(url@[k as int] != ':');
                    }
                }
            }
            let host = url.substring_char(0, k);
            let rest = url.substring_char(k + 1, n);
            proof {
                assert(rest@ =~= url@.skip(k as int + 1));
                assert(host@ =~= url@.take(k as int));
            }
            let m = rest.unicode_len();
            if m == 0 {
                return None;
            }
            let mut v: u32 = 0;
            let mut j: usize = 0;
            while j < m
                invariant
                    j <= m,
                    0 < m,
                    m == rest@.len(),
                    has_colon(url@),
                    first_colon(url@) == k as int,
                    rest@ == url@.skip(k as int + 1),
                    v <= 65535,
                    v as nat == digits_val(rest@.subrange(0, j as int)),
                    forall|i: int| 0 <= i < j ==> is_digit(rest@[i]),
                decreases m - j,
            {
                let c = rest.get_char(j);
                let cv = c as u32;
                proof {
                    assert(cv as nat == c as nat);
                }
                if cv < 48 || cv > 57 {
                    proof {
                        assert(!is_digit(rest@[j as int]));
                        assert(!all_digits(rest@));
                    }
                    return None;
                }
                let d: u32 = cv - 48;
                proof {
                    assert(is_digit(c) && d as nat == digit_val(c));
                    let pre = rest@.subrange(0, j as int);
                    let next = rest@.subrange(0, j as int + 1);
                    assert(next.drop_last() =~= pre);
                    assert(next.last() == rest@[j as int]);
                    assert(digits_val(next) == digits_val(pre) * 10 + digit_val(c));
                }
                v = v * 10 + d;
                if v > 65535 {
                    proof {
                        assert(v as nat == digits_val(rest@.subrange(0, j as int + 1)));
                        lemma_digits_prefix(rest@, j as int + 1);
                        assert(digits_val(rest@) > 65535);
                    }
                    return None;
                }
                j = j + 1;
            }
            proof {
                assert(rest@.subrange(0, m as int) =~= rest@);
                assert(all_digits(rest@));
                assert(v as nat == digits_val(rest@));
            }
            return Some((host.to_owned(), v as u16));
        }
        k = k + 1;
    }
    proof {
        assert(!has_colon(url@));
    }
    None
}

} // verus!
