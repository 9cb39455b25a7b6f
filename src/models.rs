//! Records of the proposal platform, and the parsing of their text fields.
use vstd::prelude::*;
use crate::text::{
    chars_of, clean_challenge_title, clean_str, contains_seq, contains_str, is_mark,
    lemma_without_marks, numeric_char, untagged_title, without_marks,
};

verus! {

/// Whether `c` has the Unicode White_Space property.
pub open spec fn is_white(c: char) -> bool {
    ('\u{9}' <= c && c <= '\u{d}') || c == ' ' || c == '\u{85}' || c == '\u{a0}' || c == '\u{1680}'
        || ('\u{2000}' <= c && c <= '\u{200a}') || c == '\u{2028}' || c == '\u{2029}' || c
        == '\u{202f}' || c == '\u{205f}' || c == '\u{3000}'
}

fn white(c: char) -> (r: bool)
    ensures
        r == is_white(c),
{
    ('\u{9}' <= c && c <= '\u{d}') || c == ' ' || c == '\u{85}' || c == '\u{a0}' || c == '\u{1680}'
        || ('\u{2000}' <= c && c <= '\u{200a}') || c == '\u{2028}' || c == '\u{2029}' || c
        == '\u{202f}' || c == '\u{205f}' || c == '\u{3000}'
}

/// `s` without its trailing white space.
pub open spec fn trim_end(s: Seq<char>) -> Seq<char>
    decreases s.len(),
{
    if s.len() > 0 && is_white(s.last()) {
        trim_end(s.drop_last())
    } else {
        s
    }
}

pub open spec fn starts_with(s: Seq<char>, p: Seq<char>) -> bool {
    p.len() <= s.len() && s.subrange(0, p.len() as int) == p
}

pub open spec fn ends_with(s: Seq<char>, p: Seq<char>) -> bool {
    p.len() <= s.len() && s.subrange(s.len() - p.len(), s.len() as int) == p
}

pub open spec fn zero_ada() -> Seq<char> {
    seq!['0', ' ', 'a', 'd', 'a']
}

pub open spec fn in_ada() -> Seq<char> {
    seq![' ', 'i', 'n', ' ', 'a', 'd', 'a']
}

/// Whether `t` reads `$<amount> in ada` with a non-empty amount.
pub open spec fn has_amount(t: Seq<char>) -> bool {
    t.len() >= 2 + in_ada().len() && t[0] == '$' && ends_with(t, in_ada())
}

/// The amount of `$<amount> in ada`.
pub open spec fn amount_of(t: Seq<char>) -> Seq<char> {
    t.subrange(1, t.len() - in_ada().len())
}

/// The numeric characters and dots of `s`.
pub open spec fn kept_digits(s: Seq<char>) -> Seq<char>
    decreases s.len(),
{
    if s.len() == 0 {
        s
    } else if numeric_char(s.last()) || s.last() == '.' {
        kept_digits(s.drop_last()).push(s.last())
    } else {
        kept_digits(s.drop_last())
    }
}

pub open spec fn is_digit(c: char) -> bool {
    '0' <= c && c <= '9'
}

pub open spec fn all_ascii(s: Seq<char>) -> bool {
    forall|i: int| 0 <= i < s.len() ==> (#[trigger] s[i] as u32) < 128
}

/// The digits and dots of `s`: on ASCII text, the same as `kept_digits`.
pub open spec fn kept_ascii_digits(s: Seq<char>) -> Seq<char>
    decreases s.len(),
{
    if s.len() == 0 {
        s
    } else if is_digit(s.last()) || s.last() == '.' {
        kept_ascii_digits(s.drop_last()).push(s.last())
    } else {
        kept_ascii_digits(s.drop_last())
    }
}

/// `ada_amount` on ASCII text, where the numeric characters are the digits.
pub open spec fn ada_amount_ascii(s: Seq<char>) -> Option<u64> {
    if starts_with(s, zero_ada()) {
        Some(0)
    } else if has_amount(trim_end(s)) {
        decimal_of(kept_ascii_digits(amount_of(trim_end(s))))
    } else {
        None
    }
}

pub open spec fn all_digits(d: Seq<char>) -> bool {
    forall|i: int| 0 <= i < d.len() ==> is_digit(#[trigger] d[i])
}

/// The number that the decimal digits `d` write.
pub open spec fn digits_value(d: Seq<char>) -> int
    decreases d.len(),
{
    if d.len() == 0 {
        0
    } else {
        10 * digits_value(d.drop_last()) + (d.last() as int - '0' as int)
    }
}

/// The number that `d` writes in decimal, if it is one that fits in 64 bits.
pub open spec fn decimal_of(d: Seq<char>) -> Option<u64> {
    if d.len() > 0 && all_digits(d) && digits_value(d) <= u64::MAX {
        Some(digits_value(d) as u64)
    } else {
        None
    }
}

/// Amount of an ada reward as the platform writes it: `0 ada...` is zero;
/// otherwise `$<amount> in ada`, trailing white space aside, whose amount,
/// once only its numeric characters and dots are kept, must be a decimal number.
pub open spec fn ada_amount(s: Seq<char>) -> Option<u64> {
    if starts_with(s, zero_ada()) {
        Some(0)
    } else if has_amount(trim_end(s)) {
        decimal_of(kept_digits(amount_of(trim_end(s))))
    } else {
        None
    }
}

proof fn lemma_digits_prefix(d: Seq<char>, i: int)
    requires
        all_digits(d),
        0 <= i <= d.len(),
    ensures
        0 <= digits_value(d.subrange(0, i)) <= digits_value(d),
    decreases d.len(),
{
    if d.len() > 0 {
        assert(all_digits(d.drop_last()));
        if i == d.len() {
            assert(d.subrange(0, i) =~= d);
            lemma_digits_prefix(d.drop_last(), i - 1);
        } else {
            lemma_digits_prefix(d.drop_last(), i);
            assert(d.drop_last().subrange(0, i) =~= d.subrange(0, i));
        }
        assert(is_digit(d.last()));
    }
}

/// Reads a decimal number.
pub fn parse_decimal(d: &Vec<char>) -> (r: Option<u64>)
    ensures
        r == decimal_of(d@),
{
    if d.len() == 0 {
        return None;
    }
    let mut i: usize = 0;
    while i < d.len()
        invariant
            0 <= i <= d@.len(),
            forall|k: int| 0 <= k < i ==> is_digit(#[trigger] d@[k]),
        decreases d@.len() - i,
    {
        if !('0' <= d[i] && d[i] <= '9') {
            return None;
        }
        i = i + 1;
    }
    let mut value: u64 = 0;
    let mut j: usize = 0;
    while j < d.len()
        invariant
            0 <= j <= d@.len(),
            all_digits(d@),
            value == digits_value(d@.subrange(0, j as int)),
        decreases d@.len() - j,
    {
        proof {
            assert(d@.subrange(0, j + 1).drop_last() =~= d@.subrange(0, j as int));
            lemma_digits_prefix(d@, j + 1);
            assert(is_digit(d@[j as int]));
        }
        let digit = (d[j] as u32 - '0' as u32) as u64;
        if value > (u64::MAX - digit) / 10 {
            proof {
                assert(10 * value + digit > u64::MAX) by (nonlinear_arith)
                    requires
                        value > (u64::MAX - digit) / 10,
                        digit <= 9,
                ;
            }
            return None;
        }
        proof {
            assert(10 * value + digit <= u64::MAX) by (nonlinear_arith)
                requires
                    value <= (u64::MAX - digit) / 10,
                    digit <= 9,
            ;
        }
        value = 10 * value + digit;
        j = j + 1;
    }
    assert(d@.subrange(0, j as int) =~= d@);
    Some(value)
}

/// Reads an ada reward amount; `None` where the text is malformed.
pub fn parse_ada_rewards(s: &str) -> (r: Option<u64>)
    ensures
        r == ada_amount(s@),
        all_ascii(s@) ==> r == ada_amount_ascii(s@),
{
    let v = chars_of(s);
    if v.len() >= 5 && v[0] == '0' && v[1] == ' ' && v[2] == 'a' && v[3] == 'd' && v[4] == 'a' {
        assert(v@.subrange(0, 5) =~= zero_ada());
        return Some(0);
    }
    assert(!starts_with(s@, zero_ada())) by {
        if starts_with(s@, zero_ada()) {
            assert(v@.subrange(0, 5)[1] == ' ');
        }
    }
    let mut n: usize = v.len();
    assert(v@.subrange(0, n as int) =~= v@);
    while n > 0 && white(v[n - 1])
        invariant
            0 <= n <= v@.len(),
            v@ == s@,
            trim_end(v@.subrange(0, n as int)) == trim_end(v@),
        decreases n,
    {
        assert(v@.subrange(0, n as int).drop_last() =~= v@.subrange(0, n - 1));
        n = n - 1;
    }
    let ghost t = v@.subrange(0, n as int);
    assert(trim_end(t) == t);
    if n < 9 || v[0] != '$' || v[n - 7] != ' ' || v[n - 6] != 'i' || v[n - 5] != 'n' || v[n - 4]
        != ' ' || v[n - 3] != 'a' || v[n - 2] != 'd' || v[n - 1] != 'a' {
        assert(!has_amount(t)) by {
            if has_amount(t) {
                assert(t.subrange(t.len() - 7, t.len() as int) == in_ada());
                assert(t.subrange(t.len() - 7, t.len() as int)[0] == ' ');
                assert(t.subrange(t.len() - 7, t.len() as int)[1] == 'i');
                assert(t.subrange(t.len() - 7, t.len() as int)[2] == 'n');
                assert(t.subrange(t.len() - 7, t.len() as int)[3] == ' ');
                assert(t.subrange(t.len() - 7, t.len() as int)[4] == 'a');
                assert(t.subrange(t.len() - 7, t.len() as int)[5] == 'd');
                assert(t.subrange(t.len() - 7, t.len() as int)[6] == 'a');
            }
        }
        return None;
    }
    assert(t.subrange(t.len() - 7, t.len() as int) =~= in_ada());
    let mut kept: Vec<char> = Vec::new();
    let mut i: usize = 1;
    let end = n - 7;
    while i < end
        invariant
            1 <= i <= end,
            end == n - 7,
            n <= v@.len(),
            v@ == s@,
            kept@ == kept_digits(v@.subrange(1, i as int)),
            all_ascii(v@.subrange(1, i as int)) ==> kept_digits(v@.subrange(1, i as int))
                == kept_ascii_digits(v@.subrange(1, i as int)),
        decreases end - i,
    {
        let ghost pre = v@.subrange(1, i as int);
        assert(v@.subrange(1, i + 1).drop_last() =~= pre);
        let c = v[i];
        let numeric = crate::text::is_numeric_char(c);
        proof {
            let next = v@.subrange(1, i + 1);
            if all_ascii(next) {
                assert(next.last() == c);
                assert forall|k: int| 0 <= k < pre.len() implies (#[trigger] pre[k] as u32) < 128 by {
                    assert(pre[k] == next[k]);
                }
                assert((next[next.len() - 1] as u32) < 128);
            }
        }
        if numeric || c == '.' {
            kept.push(c);
        }
        i = i + 1;
    }
    assert(v@.subrange(1, end as int) =~= amount_of(t));
    proof {
        if all_ascii(s@) {
            assert forall|k: int| 0 <= k < amount_of(t).len() implies (#[trigger] amount_of(t)[k] as u32)
                < 128 by {
                assert(amount_of(t)[k] == s@[k + 1]);
            }
        }
    }
    parse_decimal(&kept)
}

/// Whether the platform's flag marks a proposal approved.
pub fn is_approved_flag(flag: &str) -> (r: bool)
    ensures
        r == (flag@ == seq!['a', 'p', 'p', 'r', 'o', 'v', 'e', 'd']),
{
    let v = chars_of(flag);
    let r = v.len() == 8 && v[0] == 'a' && v[1] == 'p' && v[2] == 'p' && v[3] == 'r' && v[4] == 'o'
        && v[5] == 'v' && v[6] == 'e' && v[7] == 'd';
    proof {
        if r {
            assert(v@ =~= seq!['a', 'p', 'p', 'r', 'o', 'v', 'e', 'd']);
        }
    }
    r
}

/// Text with the characters `*`, `-` and `/` removed.
#[derive(Clone, Debug)]
pub struct CleanString(String);

impl View for CleanString {
    type V = Seq<char>;

    closed spec fn view(&self) -> Seq<char> {
        self.0@
    }
}

impl CleanString {
    pub open spec fn wf(&self) -> bool {
        forall|i: int| 0 <= i < self@.len() ==> !is_mark(#[trigger] self@[i])
    }

    pub fn new(s: &str) -> (r: CleanString)
        ensures
            r@ == without_marks(s@),
            r.wf(),
    {
        proof {
            lemma_without_marks(s@);
        }
        CleanString(clean_str(s))
    }

    pub fn to_string(&self) -> (r: String)
        ensures
            r@ == self@,
    {
        self.0.clone()
    }

    pub fn as_str(&self) -> (r: &str)
        ensures
            r@ == self@,
    {
        self.0.as_str()
    }
}

/// An ada amount.
#[derive(Clone, Copy, Debug, PartialEq, Eq, Structural)]
pub struct AdaRewards(u64);

impl AdaRewards {
    pub closed spec fn value(&self) -> u64 {
        self.0
    }

    pub fn new(amount: u64) -> (r: AdaRewards)
        ensures
            r.value() == amount,
    {
        AdaRewards(amount)
    }

    /// Reads the amount as the platform writes it.
    pub fn parse(s: &str) -> (r: Option<AdaRewards>)
        ensures
            match r {
                Some(a) => ada_amount(s@) == Some(a.value()),
                None => ada_amount(s@) is None,
            },
    {
        match parse_ada_rewards(s) {
            Some(v) => Some(AdaRewards(v)),
            None => None,
        }
    }

    pub fn amount(&self) -> (r: u64)
        ensures
            r == self.value(),
    {
        self.0
    }
}

impl From<AdaRewards> for u64 {
    fn from(rewards: AdaRewards) -> (r: u64) {
        rewards.0
    }
}

impl vstd::std_specs::convert::FromSpecImpl<AdaRewards> for u64 {
    open spec fn obeys_from_spec() -> bool {
        true
    }

    open spec fn from_spec(v: AdaRewards) -> u64 {
        v.value()
    }
}

/// A challenge of a fund.
#[derive(Clone, Debug)]
pub struct Challenge {
    pub id: u32,
    pub title: String,
    pub rewards: AdaRewards,
    pub description: CleanString,
    pub fund_id: u32,
    pub funnel_id: u32,
    pub challenge_url: String,
}

impl Challenge {
    /// The title as the platform gives it, without its fund tag.
    pub fn clean_title(raw: &str) -> (r: String)
        ensures
            r@ == untagged_title(raw@),
    {
        clean_challenge_title(raw)
    }
}

/// A funnel of the platform.
#[derive(Clone, Debug)]
pub struct Funnel {
    pub id: u32,
    pub title: CleanString,
    pub description: CleanString,
}

pub open spec fn community_marker() -> Seq<char> {
    seq!['C', 'h', 'a', 'l', 'l', 'e', 'n', 'g', 'e', ' ', 'S', 'e', 't', 't', 'i', 'n', 'g']
}

impl Funnel {
    /// Whether the funnel is the community's challenge-setting one.
    pub fn is_community(&self) -> (r: bool)
        ensures
            r == contains_seq(self.title@, community_marker()),
    {
        let marker = "Challenge Setting";
        proof {
            reveal_strlit("Challenge Setting");
            assert(marker@ =~= community_marker());
        }
        contains_str(self.title.as_str(), marker)
    }
}

/// A fund and its challenges.
#[derive(Clone, Debug)]
pub struct Fund {
    pub id: u32,
    pub name: CleanString,
    pub challenges: Vec<Challenge>,
}

/// The author of a proposal.
#[derive(Clone, Debug)]
pub struct Proposer {
    pub name: String,
    pub contact: String,
}

/// A stage of the platform's process.
#[derive(Clone, Debug)]
pub struct Stage {
    pub label: String,
    pub funnel_id: u32,
    pub assessment_id: u32,
}

} // verus!
