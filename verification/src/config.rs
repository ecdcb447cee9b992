//! The command line of a capture run: which dataset, which Tor ratio, and
//! the thresholds of the sampler.
use vstd::prelude::*;
use regex::Regex;
use crate::util::text::{dec_digits, digit_char};

verus! {

/// The groups of the first match of `pattern` in `text` (group 0 the whole
/// match, then each group, `None` for a group that did not take part), as
/// the `regex` crate finds it; `None` when there is no match or the pattern
/// does not compile.
pub uninterp spec fn regex_captures(pattern: Seq<char>, text: Seq<char>) -> Option<Seq<Option<Seq<char>>>>;

/// The characters of each group.
pub open spec fn groups_view(g: Seq<Option<String>>) -> Seq<Option<Seq<char>>> {
    g.map_values(|o: Option<String>| match o {
        Some(s) => Some(s@),
        None => None,
    })
}

/// A configuration that writes `e`, `m` and `d` as the elephant length,
/// mouse length and default timeout.
pub open spec fn config_text(e: Seq<char>, m: Seq<char>, d: Seq<char>) -> Seq<char> {
    "ELEPHANT_"@ + e + "-MOUSE_"@ + m + "-DELTA_"@ + d
}

/// At least one character, each an ASCII decimal digit.
pub open spec fn all_digits(s: Seq<char>) -> bool {
    s.len() > 0 && forall|i: int| 0 <= i < s.len() ==> is_digit(#[trigger] s[i])
}

/// The text is `ELEPHANT_e-MOUSE_m-DELTA_d` for three runs of ASCII digits.
pub open spec fn is_config_text(t: Seq<char>) -> bool {
    exists|e: Seq<char>, m: Seq<char>, d: Seq<char>|
        all_digits(e) && all_digits(m) && all_digits(d) && t == #[trigger] config_text(e, m, d)
}

/// The three runs of digits of a text `ELEPHANT_e-MOUSE_m-DELTA_d`.
pub open spec fn config_parts(t: Seq<char>) -> (Seq<char>, Seq<char>, Seq<char>) {
    choose|e: Seq<char>, m: Seq<char>, d: Seq<char>|
        all_digits(e) && all_digits(m) && all_digits(d) && t == #[trigger] config_text(e, m, d)
}

/// The groups of a whole match of a text `ELEPHANT_e-MOUSE_m-DELTA_d`: the
/// text, then its three runs of digits.
pub open spec fn config_groups(t: Seq<char>) -> Seq<Option<Seq<char>>> {
    seq![Some(t), Some(config_parts(t).0), Some(config_parts(t).1), Some(config_parts(t).2)]
}

/// The pattern `ELEPHANT_(\d+)-MOUSE_(\d+)-DELTA_(\d+)`, in two pieces.
pub open spec fn thresholds_pattern() -> Seq<char> {
    "ELEPHANT_(\\d+)-"@ + "MOUSE_(\\d+)-DELTA_(\\d+)"@
}

/// `Regex::new(pattern)` then `captures(text)`, each group as an owned
/// string. The contract names the result, and states one case that the
/// `regex` documentation settles: the pattern of the sampler's thresholds,
/// `ELEPHANT_(\d+)-MOUSE_(\d+)-DELTA_(\d+)`, matches a text of exactly
/// that form with three runs of ASCII digits as a whole, each `\d+` group
/// taking its run.
#[verifier::external_body]
fn captures_of(pattern: &str, text: &str) -> (r: Option<Vec<Option<String>>>)
    ensures
        r is Some <==> regex_captures(pattern@, text@) is Some,
        r matches Some(g) ==> groups_view(g@) == regex_captures(pattern@, text@).unwrap(),
        r is Some || !(pattern@ == thresholds_pattern() && is_config_text(text@)),
        r matches Some(g) ==> (pattern@ == thresholds_pattern() && is_config_text(text@) ==> groups_view(g@) == config_groups(text@)),
{
    match Regex::new(pattern) {
        Ok(re) => re.captures(text).map(|c| c.iter().map(|m| m.map(|m| m.as_str().to_string())).collect()),
        Err(_) => None,
    }
}

/// The pattern of the sampler's thresholds: elephant length, mouse length
/// and default timeout.
pub open spec fn exp_config_pattern() -> Seq<char> {
    "ELEPHANT_(\\d+)-MOUSE_(\\d+)-DELTA_(\\d+)"@
}

/// The value of a decimal digit character.
pub open spec fn digit_value(c: char) -> int {
    c as int - 48
}

/// The character is an ASCII decimal digit.
pub open spec fn is_digit(c: char) -> bool {
    48 <= c as int <= 57
}

/// The number written by the decimal digits `s`.
pub open spec fn digits_value(s: Seq<char>) -> int
    decreases s.len(),
{
    if s.len() == 0 {
        0
    } else {
        digits_value(s.drop_last()) * 10 + digit_value(s.last())
    }
}

/// The digits after an optional leading `+`.
pub open spec fn unsigned_digits(s: Seq<char>) -> Seq<char> {
    if s.len() > 0 && s[0] == '+' {
        s.drop_first()
    } else {
        s
    }
}

/// What std's `str::parse` gives for an unsigned integer up to `max`: the
/// number, for an optional `+` followed by at least one ASCII digit, whose
/// value is at most `max`; otherwise an error.
pub open spec fn parse_unsigned(s: Seq<char>, max: int) -> Option<int> {
    let d = unsigned_digits(s);
    if d.len() > 0 && (forall|i: int| 0 <= i < d.len() ==> is_digit(#[trigger] d[i])) && digits_value(d) <= max {
        Some(digits_value(d))
    } else {
        None
    }
}

proof fn lemma_digits_value_nonneg(s: Seq<char>)
    requires
        forall|i: int| 0 <= i < s.len() ==> is_digit(#[trigger] s[i]),
    ensures
        digits_value(s) >= 0,
    decreases s.len(),
{
    if s.len() > 0 {
        lemma_digits_value_nonneg(s.drop_last());
    }
}

/// A prefix of digits is worth no more than the whole.
proof fn lemma_digits_value_prefix(s: Seq<char>, i: int)
    requires
        0 <= i <= s.len(),
        forall|j: int| 0 <= j < s.len() ==> is_digit(#[trigger] s[j]),
    ensures
        digits_value(s.subrange(0, i)) <= digits_value(s),
    decreases s.len() - i,
{
    if i < s.len() {
        lemma_digits_value_prefix(s, i + 1);
        assert(s.subrange(0, i + 1).drop_last() =~= s.subrange(0, i));
        lemma_digits_value_nonneg(s.subrange(0, i));
        assert(s.subrange(0, i + 1).last() == s[i]);
    } else {
        assert(s.subrange(0, i) =~= s);
    }
}

/// The decimal digits of a number are ASCII digits worth the number.
proof fn lemma_dec_digits_value(n: nat)
    ensures
        all_digits(dec_digits(n)),
        digits_value(dec_digits(n)) == n,
    decreases n,
{
    let s = dec_digits(n);
    if n < 10 {
        assert(digit_char(n) as int == 48 + n);
        assert(s.drop_last() =~= Seq::<char>::empty());
        assert(digits_value(s) == digits_value(s.drop_last()) * 10 + digit_value(s.last()));
    } else {
        lemma_dec_digits_value(n / 10);
        assert(s.drop_last() =~= dec_digits(n / 10));
        assert(s.last() == digit_char((n % 10) as nat));
        assert(digit_char((n % 10) as nat) as int == 48 + n % 10);
        assert(digits_value(s) == digits_value(s.drop_last()) * 10 + digit_value(s.last()));
        assert forall|i: int| 0 <= i < s.len() implies is_digit(#[trigger] s[i]) by {
            if i < s.len() - 1 {
                assert(s[i] == dec_digits(n / 10)[i]);
            }
        }
    }
}

/// Two texts that each begin with a run of digits and then a separator that
/// begins with a non-digit are equal only if their runs and their rests are.
proof fn lemma_split_after_digits(x: Seq<char>, sep: Seq<char>, r: Seq<char>, x2: Seq<char>, r2: Seq<char>)
    requires
        all_digits(x),
        all_digits(x2),
        sep.len() > 0,
        !is_digit(sep[0]),
        x + (sep + r) == x2 + (sep + r2),
    ensures
        x == x2,
        r == r2,
{
    let t = x + (sep + r);
    let t2 = x2 + (sep + r2);
    if x.len() < x2.len() {
        assert(t[x.len() as int] == sep[0]);
        assert(t2[x.len() as int] == x2[x.len() as int]);
    } else if x2.len() < x.len() {
        assert(t2[x2.len() as int] == sep[0]);
        assert(t[x2.len() as int] == x[x2.len() as int]);
    }
    assert(x =~= t.subrange(0, x.len() as int));
    assert(x2 =~= t2.subrange(0, x2.len() as int));
    assert(r =~= t.subrange((x.len() + sep.len()) as int, t.len() as int));
    assert(r2 =~= t2.subrange((x2.len() + sep.len()) as int, t2.len() as int));
}

/// A text `ELEPHANT_e-MOUSE_m-DELTA_d` with three runs of digits has one
/// such reading.
proof fn lemma_config_text_unique(
    e: Seq<char>,
    m: Seq<char>,
    d: Seq<char>,
    e2: Seq<char>,
    m2: Seq<char>,
    d2: Seq<char>,
)
    requires
        all_digits(e),
        all_digits(m),
        all_digits(d),
        all_digits(e2),
        all_digits(m2),
        all_digits(d2),
        config_text(e, m, d) == config_text(e2, m2, d2),
    ensures
        e == e2,
        m == m2,
        d == d2,
{
    reveal_strlit("ELEPHANT_");
    reveal_strlit("-MOUSE_");
    reveal_strlit("-DELTA_");
    let p = "ELEPHANT_"@;
    let s1 = "-MOUSE_"@;
    let s2 = "-DELTA_"@;
    let t = config_text(e, m, d);
    let rest = e + (s1 + (m + (s2 + d)));
    let rest2 = e2 + (s1 + (m2 + (s2 + d2)));
    assert(t =~= p + rest);
    assert(config_text(e2, m2, d2) =~= p + rest2);
    assert(rest =~= t.subrange(p.len() as int, t.len() as int));
    assert(rest2 =~= t.subrange(p.len() as int, t.len() as int));
    lemma_split_after_digits(e, s1, m + (s2 + d), e2, m2 + (s2 + d2));
    lemma_split_after_digits(m, s2, d, m2, d2);
}

/// Every number up to `max` reads back as itself: std's unsigned parse of
/// its decimal digits gives it, zero included.
pub proof fn lemma_parse_decimal_digits(n: nat, max: int)
    requires
        n <= max,
    ensures
        parse_unsigned(dec_digits(n), max) == Some(n as int),
{
    lemma_dec_digits_value(n);
    let s = dec_digits(n);
    assert(is_digit(s[0]));
    assert(unsigned_digits(s) == s);
}

/// Parses an unsigned decimal number of at most `max`, as std's
/// `str::parse` does for unsigned integers (see `parse_unsigned`).
pub fn parse_decimal(s: &str, max: u64) -> (r: Option<u64>)
    ensures
        r is Some <==> parse_unsigned(s@, max as int) is Some,
        r matches Some(x) ==> parse_unsigned(s@, max as int) == Some(x as int) && x <= max,
{
    let n = s.unicode_len();
    let mut start: usize = 0;
    if n > 0 && s.get_char(0) == '+' {
        start = 1;
    }
    let ghost d = unsigned_digits(s@);
    proof {
        assert(d =~= s@.subrange(start as int, n as int));
    }
    if start >= n {
        return None;
    }
    let mut value: u64 = 0;
    let mut i: usize = start;
    while i < n
        invariant
            start <= i <= n,
            n == s@.len(),
            d == s@.subrange(start as int, n as int),
            d == unsigned_digits(s@),
            forall|j: int| 0 <= j < i - start ==> is_digit(#[trigger] d[j]),
            value == digits_value(d.subrange(0, i - start)),
            value <= max,
        decreases n - i,
    {
        let c = s.get_char(i);
        proof {
            assert(c == d[i - start]);
            assert(d.subrange(0, i - start + 1).drop_last() =~= d.subrange(0, i - start));
            assert(d.subrange(0, i - start + 1).last() == c);
        }
        let cu = c as u32;
        if !(48 <= cu && cu <= 57) {
            proof {
                assert(!is_digit(d[i - start]));
                assert(0 <= i - start < d.len());
                assert(!(forall|k: int| 0 <= k < d.len() ==> is_digit(#[trigger] d[k])));
                assert(d == unsigned_digits(s@));
                assert(parse_unsigned(s@, max as int) is None);
            }
            return None;
        }
        let digit = (cu - 48) as u64;
        proof {
            assert(digits_value(d.subrange(0, i - start + 1)) == value * 10 + digit);
        }
        if value > max / 10 {
            proof {
                assert(value * 10 > max) by (nonlinear_arith)
                    requires value > max / 10;
                assert(digits_value(d.subrange(0, i - start + 1)) > max);
                if forall|k: int| 0 <= k < d.len() ==> is_digit(#[trigger] d[k]) {
                    lemma_digits_value_prefix(d, i - start + 1);
                    assert(digits_value(d) > max);
                }
                assert(d == unsigned_digits(s@));
                assert(parse_unsigned(s@, max as int) is None);
            }
            return None;
        }
        assert(value * 10 <= max) by (nonlinear_arith)
            requires value <= max / 10;
        let v10 = value * 10;
        if digit > max - v10 {
            proof {
                if forall|k: int| 0 <= k < d.len() ==> is_digit(#[trigger] d[k]) {
                    lemma_digits_value_prefix(d, i - start + 1);
                }
            }
            return None;
        }
        value = v10 + digit;
        i = i + 1;
    }
    proof {
        assert(d.subrange(0, n - start) =~= d);
    }
    Some(value)
}

/// Why the thresholds could not be read from the configuration.
#[derive(Debug, Clone, Copy, PartialEq, Eq, Structural)]
pub enum ConfigError {
    /// The configuration does not match the pattern.
    NoMatch,
    /// "Failed to parse elephant length"
    ElephantLength,
    /// "Failed to parse mouse length"
    MouseLength,
    /// "Failed to parse delta length"
    DeltaLength,
}

/// The sampler's thresholds.
#[derive(Debug, Clone, Copy, PartialEq, Eq, Structural)]
pub struct ExpConfig {
    pub elephant_length: u32,
    pub mouse_length: u32,
    pub default_delta: u16,
}

/// The text of group `i` of a match; empty when the group is absent.
pub open spec fn group_text(g: Seq<Option<Seq<char>>>, i: int) -> Seq<char> {
    if 0 <= i < g.len() && g[i] is Some {
        g[i].unwrap()
    } else {
        Seq::empty()
    }
}

/// What the configuration `config` gives: the three numbers of the first
/// match of `ELEPHANT_(\d+)-MOUSE_(\d+)-DELTA_(\d+)`, each parsed as std
/// parses a `u32`, `u32` and `u16`; the first that fails is the error.
pub open spec fn exp_config_of(config: Seq<char>) -> Result<ExpConfig, ConfigError> {
    match regex_captures(exp_config_pattern(), config) {
        None => Err(ConfigError::NoMatch),
        Some(g) => match parse_unsigned(group_text(g, 1), u32::MAX as int) {
            None => Err(ConfigError::ElephantLength),
            Some(e) => match parse_unsigned(group_text(g, 2), u32::MAX as int) {
                None => Err(ConfigError::MouseLength),
                Some(m) => match parse_unsigned(group_text(g, 3), u16::MAX as int) {
                    None => Err(ConfigError::DeltaLength),
                    Some(dl) => Ok(ExpConfig { elephant_length: e as u32, mouse_length: m as u32, default_delta: dl as u16 }),
                },
            },
        },
    }
}

/// A configuration `ELEPHANT_e-MOUSE_m-DELTA_d` that writes three numbers
/// within `u32`, `u32` and `u16` in decimal, and whose three groups the
/// pattern captures, gives exactly those numbers.
pub proof fn lemma_exp_config_of_numbers(e: u32, m: u32, d: u16)
    requires
        ({
            let t = config_text(dec_digits(e as nat), dec_digits(m as nat), dec_digits(d as nat));
            regex_captures(exp_config_pattern(), t)
                == Some(seq![Some(t), Some(dec_digits(e as nat)), Some(dec_digits(m as nat)), Some(dec_digits(d as nat))])
        }),
    ensures
        exp_config_of(config_text(dec_digits(e as nat), dec_digits(m as nat), dec_digits(d as nat)))
            == Ok::<ExpConfig, ConfigError>(ExpConfig { elephant_length: e, mouse_length: m, default_delta: d }),
{
    lemma_parse_decimal_digits(e as nat, u32::MAX as int);
    lemma_parse_decimal_digits(m as nat, u32::MAX as int);
    lemma_parse_decimal_digits(d as nat, u16::MAX as int);
}

/// The text of group `i`, or an empty string.
fn group_at(g: &Vec<Option<String>>, i: usize) -> (s: String)
    ensures
        s@ == group_text(groups_view(g@), i as int),
{
    if i < g.len() {
        match &g[i] {
            Some(t) => t.clone(),
            None => String::new(),
        }
    } else {
        String::new()
    }
}

/// Reads the sampler's thresholds from a configuration such as
/// `ELEPHANT_100-MOUSE_10-DELTA_8000` (see `exp_config_of`).
pub fn parse_exp_config(config: &str) -> (r: Result<ExpConfig, ConfigError>)
    ensures
        r == exp_config_of(config@),
        forall|e: u32, m: u32, d: u16|
            config@ == #[trigger] config_text(dec_digits(e as nat), dec_digits(m as nat), dec_digits(d as nat))
                ==> r == Ok::<ExpConfig, ConfigError>(ExpConfig { elephant_length: e, mouse_length: m, default_delta: d }),
{
    proof {
        reveal_strlit("ELEPHANT_(\\d+)-MOUSE_(\\d+)-DELTA_(\\d+)");
        reveal_strlit("ELEPHANT_(\\d+)-");
        reveal_strlit("MOUSE_(\\d+)-DELTA_(\\d+)");
    }
    let pattern = "ELEPHANT_(\\d+)-MOUSE_(\\d+)-DELTA_(\\d+)";
    assert(pattern@ == exp_config_pattern());
    assert(pattern@ =~= thresholds_pattern());
    let cap = captures_of(pattern, config);
    proof {
        assert forall|e: u32, m: u32, d: u16|
            config@ == #[trigger] config_text(dec_digits(e as nat), dec_digits(m as nat), dec_digits(d as nat))
            implies exp_config_of(config@)
                == Ok::<ExpConfig, ConfigError>(ExpConfig { elephant_length: e, mouse_length: m, default_delta: d }) by {
            let de = dec_digits(e as nat);
            let dm = dec_digits(m as nat);
            let dd = dec_digits(d as nat);
            lemma_dec_digits_value(e as nat);
            lemma_dec_digits_value(m as nat);
            lemma_dec_digits_value(d as nat);
            assert(config@ == config_text(de, dm, dd));
            assert(is_config_text(config@));
            let parts = config_parts(config@);
            lemma_config_text_unique(parts.0, parts.1, parts.2, de, dm, dd);
            assert(pattern@ == thresholds_pattern());
            assert(cap is Some);
            assert(config_groups(config@) =~= seq![Some(config@), Some(de), Some(dm), Some(dd)]);
            lemma_exp_config_of_numbers(e, m, d);
        }
    }
    let g = match cap {
        Some(g) => g,
        None => return Err(ConfigError::NoMatch),
    };
    let e = group_at(&g, 1);
    let elephant_length = match parse_decimal(e.as_str(), u32::MAX as u64) {
        Some(v) => v as u32,
        None => return Err(ConfigError::ElephantLength),
    };
    let m = group_at(&g, 2);
    let mouse_length = match parse_decimal(m.as_str(), u32::MAX as u64) {
        Some(v) => v as u32,
        None => return Err(ConfigError::MouseLength),
    };
    let d = group_at(&g, 3);
    let default_delta = match parse_decimal(d.as_str(), u16::MAX as u64) {
        Some(v) => v as u16,
        None => return Err(ConfigError::DeltaLength),
    };
    Ok(ExpConfig { elephant_length, mouse_length, default_delta })
}

/// Whether `s` is one of the Tor source datasets: `cetc30`, `cicdarknet`, `tcub`.
pub fn is_valid_src_dataset(s: &str) -> (b: bool)
    ensures
        b == (s@ == "cetc30"@ || s@ == "cicdarknet"@ || s@ == "tcub"@),
{
    let t = String::from_str(s);
    let a = String::from_str("cetc30");
    let b = String::from_str("cicdarknet");
    let c = String::from_str("tcub");
    t == a || t == b || t == c
}

/// Whether `s` is one of the Tor ratios: `.1000`, `.0500`, `.0100`, `.0050`,
/// `.0010`, `.0005`, `.0001`.
pub fn is_valid_ratio(s: &str) -> (b: bool)
    ensures
        b == (s@ == ".1000"@ || s@ == ".0500"@ || s@ == ".0100"@ || s@ == ".0050"@
            || s@ == ".0010"@ || s@ == ".0005"@ || s@ == ".0001"@),
{
    let t = String::from_str(s);
    t == String::from_str(".1000") || t == String::from_str(".0500") || t == String::from_str(".0100")
        || t == String::from_str(".0050") || t == String::from_str(".0010") || t == String::from_str(".0005")
        || t == String::from_str(".0001")
}

/// The capture file of a dataset at a Tor ratio:
/// `/_data/LOWPTOR/<dataset>/lowptor-<dataset>-<ratio>.pcap`.
pub fn pcap_file_path(dataset: &str, ratio: &str) -> (p: String)
    ensures
        p@ == "/_data/LOWPTOR/"@ + dataset@ + "/lowptor-"@ + dataset@ + "-"@ + ratio@ + ".pcap"@,
{
    let mut p = String::from_str("/_data/LOWPTOR/");
    p.append(dataset);
    p.append("/lowptor-");
    p.append(dataset);
    p.append("-");
    p.append(ratio);
    p.append(".pcap");
    p
}

/// The Tor label file of a dataset:
/// `/_code/backbone_traffic_detection/data/lowptor-<dataset>-label-tor.csv`.
pub fn label_file_path(dataset: &str) -> (p: String)
    ensures
        p@ == "/_code/backbone_traffic_detection/data/lowptor-"@ + dataset@ + "-label-tor.csv"@,
{
    let mut p = String::from_str("/_code/backbone_traffic_detection/data/lowptor-");
    p.append(dataset);
    p.append("-label-tor.csv");
    p
}

} // verus!
