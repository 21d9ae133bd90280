//! Character-level text utilities: white-space trimming and splitting on
//! single spaces, with exact sequence-level specifications, plus the trusted
//! bridge to Unicode upper-casing.

use vstd::prelude::*;
use vstd::string::StrSliceExecFns;

verus! {

/// The Unicode white-space characters, the set that `str::trim` removes at
/// both ends of a string.
pub open spec fn is_ws(c: char) -> bool {
    let u = c as u32;
    u == 0x20 || (0x9 <= u && u <= 0xD) || u == 0x85 || u == 0xA0 || u == 0x1680 || (0x2000 <= u
        && u <= 0x200A) || u == 0x2028 || u == 0x2029 || u == 0x202F || u == 0x205F || u == 0x3000
}

/// Runtime test for [`is_ws`].
pub fn is_ws_char(c: char) -> (r: bool)
    ensures
        r == is_ws(c),
{
    let u = c as u32;
    u == 0x20 || (0x9 <= u && u <= 0xD) || u == 0x85 || u == 0xA0 || u == 0x1680 || (0x2000 <= u
        && u <= 0x200A) || u == 0x2028 || u == 0x2029 || u == 0x202F || u == 0x205F || u == 0x3000
}

/// The sequence with its leading white space removed.
pub open spec fn trim_start_spec(s: Seq<char>) -> Seq<char>
    decreases s.len(),
{
    if s.len() > 0 && is_ws(s[0]) {
        trim_start_spec(s.drop_first())
    } else {
        s
    }
}

/// The sequence with its trailing white space removed.
pub open spec fn trim_end_spec(s: Seq<char>) -> Seq<char>
    decreases s.len(),
{
    if s.len() > 0 && is_ws(s.last()) {
        trim_end_spec(s.drop_last())
    } else {
        s
    }
}

/// The sequence with white space removed at both ends, as `str::trim` does.
pub open spec fn trim_spec(s: Seq<char>) -> Seq<char> {
    trim_end_spec(trim_start_spec(s))
}

proof fn lemma_trim_start_at(s: Seq<char>, lo: int)
    requires
        0 <= lo <= s.len(),
        forall|k: int| 0 <= k < lo ==> is_ws(s[k]),
        lo == s.len() || !is_ws(s[lo]),
    ensures
        trim_start_spec(s) == s.skip(lo),
    decreases lo,
{
    if lo == 0 {
        assert(s.skip(0) =~= s);
    } else {
        lemma_trim_start_at(s.drop_first(), lo - 1);
        assert(s.drop_first().skip(lo - 1) =~= s.skip(lo));
    }
}

proof fn lemma_trim_end_at(s: Seq<char>, hi: int)
    requires
        0 <= hi <= s.len(),
        forall|k: int| hi <= k < s.len() ==> is_ws(s[k]),
        hi == 0 || !is_ws(s[hi - 1]),
    ensures
        trim_end_spec(s) == s.take(hi),
    decreases s.len(),
{
    if hi == s.len() {
        assert(s.take(hi) =~= s);
    } else {
        lemma_trim_end_at(s.drop_last(), hi);
        assert(s.drop_last().take(hi) =~= s.take(hi));
    }
}

/// The substring of `s` with white space removed at both ends.
pub fn trim_str<'a>(s: &'a str) -> (r: &'a str)
    ensures
        r@ == trim_spec(s@),
{
    let n: usize = s.unicode_len();
    let mut lo: usize = 0;
    while lo < n && is_ws_char(s.get_char(lo))
        invariant
            n == s@.len(),
            0 <= lo <= n,
            forall|k: int| 0 <= k < lo ==> is_ws(s@[k]),
        decreases n - lo,
    {
        lo = lo + 1;
    }
    let mut hi: usize = n;
    while hi > lo && is_ws_char(s.get_char(hi - 1))
        invariant
            n == s@.len(),
            lo <= hi <= n,
            forall|k: int| hi <= k < n ==> is_ws(s@[k]),
        decreases hi,
    {
        hi = hi - 1;
    }
    proof {
        lemma_trim_start_at(s@, lo as int);
        if hi == lo {
            lemma_trim_end_at(s@.skip(lo as int), 0);
        } else {
            lemma_trim_end_at(s@.skip(lo as int), hi - lo);
        }
        assert(s@.skip(lo as int).take(hi - lo) =~= s@.subrange(lo as int, hi as int));
    }
    s.substring_char(lo, hi)
}

/// The tokens of `s` delimited by single spaces, as `str::split(' ')` yields
/// them: an empty input gives one empty token, and each space ends a token.
pub open spec fn split_sp(s: Seq<char>) -> Seq<Seq<char>>
    decreases s.len(),
{
    if s.len() == 0 {
        seq![Seq::<char>::empty()]
    } else {
        let rest = split_sp(s.drop_last());
        if s.last() == ' ' {
            rest.push(Seq::<char>::empty())
        } else {
            rest.update(rest.len() - 1, rest.last().push(s.last()))
        }
    }
}

/// Splitting always yields at least one token.
pub proof fn lemma_split_sp_len(s: Seq<char>)
    ensures
        split_sp(s).len() >= 1,
    decreases s.len(),
{
    if s.len() > 0 {
        lemma_split_sp_len(s.drop_last());
    }
}

/// A sequence without spaces is a single token.
pub proof fn lemma_split_sp_no_space(s: Seq<char>)
    requires
        forall|k: int| 0 <= k < s.len() ==> s[k] != ' ',
    ensures
        split_sp(s) == seq![s],
    decreases s.len(),
{
    if s.len() == 0 {
        assert(split_sp(s) =~~= seq![s]);
    } else {
        lemma_split_sp_no_space(s.drop_last());
        assert(split_sp(s) =~~= seq![s]);
    }
}

/// Splitting distributes over a space: the tokens of `a + " " + b` are the
/// tokens of `a` followed by the tokens of `b`.
pub proof fn lemma_split_sp_append(a: Seq<char>, b: Seq<char>)
    ensures
        split_sp(a + seq![' '] + b) == split_sp(a) + split_sp(b),
    decreases b.len(),
{
    lemma_split_sp_len(a);
    if b.len() == 0 {
        assert((a + seq![' '] + b).drop_last() =~= a);
        assert((a + seq![' '] + b).last() == ' ');
        assert(split_sp(a + seq![' '] + b) =~= split_sp(a) + split_sp(b));
    } else {
        lemma_split_sp_append(a, b.drop_last());
        lemma_split_sp_len(b.drop_last());
        let w = a + seq![' '] + b;
        assert(w.drop_last() =~= a + seq![' '] + b.drop_last());
        assert(w.last() == b.last());
        if b.last() == ' ' {
            assert(split_sp(w) =~= split_sp(a) + split_sp(b));
        } else {
            let rest = split_sp(a) + split_sp(b.drop_last());
            assert(rest.last() == split_sp(b.drop_last()).last());
            assert(split_sp(w) == rest.update(
                rest.len() - 1,
                rest.last().push(b.last()),
            ));
            assert(rest.update(rest.len() - 1, rest.last().push(b.last())) =~= split_sp(a)
                + split_sp(b.drop_last()).update(
                split_sp(b.drop_last()).len() - 1,
                split_sp(b.drop_last()).last().push(b.last()),
            ));
            assert(split_sp(w) =~= split_sp(a) + split_sp(b));
        }
    }
}

/// Relies on `String::push`: appends the given character to the end of the
/// string.
#[verifier::external_body]
pub(crate) fn push_char(s: &mut String, c: char)
    ensures
        final(s)@ == old(s)@.push(c),
{
    s.push(c);
}

/// What `str::to_uppercase` returns: a function of the characters alone.
pub uninterp spec fn upper_of(s: Seq<char>) -> Seq<char>;

/// Relies on `str::to_uppercase`: the Unicode upper-case form of the text,
/// which depends on the input characters alone.
#[verifier::external_body]
pub(crate) fn to_upper(s: &str) -> (r: String)
    ensures
        r@ == upper_of(s@),
{
    s.to_uppercase()
}

/// The tokens of `s`, split on single spaces.
pub fn split_spaces(s: &str) -> (tokens: Vec<String>)
    ensures
        tokens.deep_view() == split_sp(s@),
{
    let n: usize = s.unicode_len();
    let mut tokens: Vec<String> = Vec::new();
    let mut cur: String = String::new();
    let mut i: usize = 0;
    while i < n
        invariant
            n == s@.len(),
            0 <= i <= n,
            tokens.deep_view().push(cur@) == split_sp(s@.take(i as int)),
        decreases n - i,
    {
        let ghost prev_tokens = tokens.deep_view();
        let ghost prev_cur = cur@;
        let c = s.get_char(i);
        if c == ' ' {
            tokens.push(cur);
            cur = String::new();
        } else {
            push_char(&mut cur, c);
        }
        proof {
            assert(s@.take(i + 1).drop_last() =~= s@.take(i as int));
            assert(s@.take(i + 1).last() == s@[i as int]);
            if c == ' ' {
                assert(tokens.deep_view() =~= prev_tokens.push(prev_cur));
                assert(tokens.deep_view().push(cur@) =~= split_sp(s@.take(i + 1)));
            } else {
                let rest = split_sp(s@.take(i as int));
                assert(rest == prev_tokens.push(prev_cur));
                assert(rest.last() == prev_cur);
                assert(tokens.deep_view() =~= prev_tokens);
                assert(tokens.deep_view().push(cur@) =~= rest.update(
                    rest.len() - 1,
                    rest.last().push(s@[i as int]),
                ));
            }
        }
        i = i + 1;
    }
    let ghost prev_tokens = tokens.deep_view();
    let ghost prev_cur = cur@;
    tokens.push(cur);
    proof {
        assert(s@.take(n as int) =~= s@);
        assert(tokens.deep_view() =~= prev_tokens.push(prev_cur));
    }
    tokens
}

} // verus!
