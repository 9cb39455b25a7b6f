//! Character-level helpers for the text that the proposal platform returns.
use vstd::prelude::*;
use vstd::std_specs::iter::IteratorSpec;

verus! {

/// Relies on `String`'s `FromIterator<&char>`: the characters, in order.
#[verifier::external_body]
fn string_of(v: &Vec<char>) -> (r: String)
    ensures
        r@ == v@,
{
    String::from_iter(v.iter())
}

/// Whether a character counts as numeric for `char::is_numeric`.
pub uninterp spec fn numeric_char(c: char) -> bool;

/// Relies on `char::is_numeric`: true for the characters of the Unicode number
/// categories, among which the ASCII digits and no other ASCII character.
#[verifier::external_body]
pub(crate) fn is_numeric_char(c: char) -> (r: bool)
    ensures
        r == numeric_char(c),
        (c as u32) < 128 ==> (r <==> ('0' <= c && c <= '9')),
{
    c.is_numeric()
}

/// The characters of `s`.
pub fn chars_of(s: &str) -> (r: Vec<char>)
    ensures
        r@ == s@,
{
    broadcast use vstd::string::axiom_spec_iter, vstd::string::next_postcondition;

    let mut out: Vec<char> = Vec::new();
    let mut it = s.chars();
    loop
        invariant
            out@ + it.remaining() == s@,
            it.obeys_prophetic_iter_laws(),
            it.decrease() is Some,
        decreases it.decrease()->0,
    {
        let ghost before = it.remaining();
        match it.next() {
            Some(c) => {
                out.push(c);
                assert(out@ + it.remaining() =~= s@) by {
                    assert(before =~= seq![c] + it.remaining());
                }
            },
            None => {
                assert(out@ =~= s@);
                return out;
            },
        }
    }
}

pub open spec fn is_mark(c: char) -> bool {
    c == '*' || c == '-' || c == '/'
}

/// `s` without the characters `*`, `-` and `/`.
pub open spec fn without_marks(s: Seq<char>) -> Seq<char>
    decreases s.len(),
{
    if s.len() == 0 {
        s
    } else if is_mark(s.last()) {
        without_marks(s.drop_last())
    } else {
        without_marks(s.drop_last()).push(s.last())
    }
}

pub proof fn lemma_without_marks(s: Seq<char>)
    ensures
        forall|i: int| 0 <= i < without_marks(s).len() ==> !is_mark(#[trigger] without_marks(s)[i]),
    decreases s.len(),
{
    if s.len() > 0 {
        lemma_without_marks(s.drop_last());
        let w = without_marks(s.drop_last());
        if !is_mark(s.last()) {
            assert forall|i: int| 0 <= i < w.len() implies w.push(s.last())[i] == w[i] by {}
        }
    }
}

/// Removes the characters `*`, `-` and `/`.
pub fn clean_str(s: &str) -> (r: String)
    ensures
        r@ == without_marks(s@),
{
    let v = chars_of(s);
    let mut out: Vec<char> = Vec::new();
    let mut i: usize = 0;
    while i < v.len()
        invariant
            0 <= i <= v@.len(),
            out@ == without_marks(v@.subrange(0, i as int)),
        decreases v@.len() - i,
    {
        assert(v@.subrange(0, i + 1).drop_last() =~= v@.subrange(0, i as int));
        let c = v[i];
        if !(c == '*' || c == '-' || c == '/') {
            out.push(c);
        }
        i = i + 1;
    }
    assert(v@.subrange(0, i as int) =~= v@);
    string_of(&out)
}

/// Whether `pat` occurs in `s` at position `i`.
pub open spec fn occurs_at(s: Seq<char>, pat: Seq<char>, i: int) -> bool {
    0 <= i && i + pat.len() <= s.len() && s.subrange(i, i + pat.len()) == pat
}

pub open spec fn contains_seq(s: Seq<char>, pat: Seq<char>) -> bool {
    exists|i: int| occurs_at(s, pat, i)
}

fn occurs_at_exec(s: &Vec<char>, pat: &Vec<char>, i: usize) -> (r: bool)
    requires
        i + pat@.len() <= s@.len(),
    ensures
        r == occurs_at(s@, pat@, i as int),
{
    let n = s.len();
    let mut k: usize = 0;
    while k < pat.len()
        invariant
            0 <= k <= pat@.len(),
            n == s@.len(),
            i + pat@.len() <= s@.len(),
            forall|m: int| 0 <= m < k ==> s@[i + m] == pat@[m],
        decreases pat@.len() - k,
    {
        if s[i + k] != pat[k] {
            assert(s@.subrange(i as int, i + pat@.len())[k as int] != pat@[k as int]);
            return false;
        }
        k = k + 1;
    }
    assert(s@.subrange(i as int, i + pat@.len()) =~= pat@);
    true
}

/// Whether `pat` occurs in `s`.
pub fn contains_str(s: &str, pat: &str) -> (r: bool)
    ensures
        r == contains_seq(s@, pat@),
{
    let sv = chars_of(s);
    let pv = chars_of(pat);
    if pv.len() > sv.len() {
        return false;
    }
    let last = sv.len() - pv.len();
    let mut i: usize = 0;
    while i < last
        invariant
            0 <= i <= last,
            last + pv@.len() == sv@.len(),
            sv@ == s@,
            pv@ == pat@,
            forall|m: int| 0 <= m < i ==> !occurs_at(s@, pat@, m),
        decreases last - i,
    {
        if occurs_at_exec(&sv, &pv, i) {
            return true;
        }
        i = i + 1;
    }
    let r = occurs_at_exec(&sv, &pv, last);
    proof {
        if !r {
            assert forall|m: int| !occurs_at(s@, pat@, m) by {
                if m > last {
                    assert(m + pat@.len() > s@.len());
                }
            }
        }
    }
    r
}

/// A title with a leading fund tag such as `F5: ` removed: where it starts
/// with `F` and holds a space, what follows the first space.
pub open spec fn untagged_title(s: Seq<char>) -> Seq<char> {
    if s.len() > 0 && s[0] == 'F' && exists|i: int| 0 <= i < s.len() && s[i] == ' ' {
        let k = choose|i: int| 0 <= i < s.len() && s[i] == ' ' && forall|j: int| 0 <= j < i ==> s[j] != ' ';
        s.subrange(k + 1, s.len() as int)
    } else {
        s
    }
}

/// Removes the fund tag in front of a challenge title.
pub fn clean_challenge_title(s: &str) -> (r: String)
    ensures
        r@ == untagged_title(s@),
{
    let v = chars_of(s);
    if v.len() == 0 || v[0] != 'F' {
        return string_of(&v);
    }
    let mut i: usize = 0;
    while i < v.len()
        invariant
            0 <= i <= v@.len(),
            v@ == s@,
            v@.len() > 0,
            v@[0] == 'F',
            forall|j: int| 0 <= j < i ==> v@[j] != ' ',
        decreases v@.len() - i,
    {
        if v[i] == ' ' {
            let mut out: Vec<char> = Vec::new();
            let mut k: usize = i + 1;
            while k < v.len()
                invariant
                    i + 1 <= k <= v@.len(),
                    i < v@.len(),
                    v@ == s@,
                    v@[i as int] == ' ',
                    v@[0] == 'F',
                    forall|j: int| 0 <= j < i ==> v@[j] != ' ',
                    out@ == v@.subrange(i + 1, k as int),
                decreases v@.len() - k,
            {
                out.push(v[k]);
                k = k + 1;
                assert(out@ =~= v@.subrange(i + 1, k as int));
            }
            proof {
                let ii = i as int;
                assert(0 <= ii < s@.len() && s@[ii] == ' ');
                assert(0 <= ii < s@.len() && s@[ii] == ' ' && forall|j: int| 0 <= j < ii ==> s@[j] != ' ');
                let kk = choose|m: int| 0 <= m < s@.len() && s@[m] == ' ' && forall|j: int| 0 <= j < m ==> s@[j] != ' ';
                if kk < ii {
                    assert(s@[kk] != ' ');
                } else if kk > ii {
                    assert(s@[ii] != ' ');
                }
                assert(kk == ii);
            }
            return string_of(&out);
        }
        i = i + 1;
    }
    string_of(&v)
}

} // verus!
