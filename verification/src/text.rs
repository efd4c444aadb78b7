//! String primitives of `core::str` that the rest of the kernel leans on,
//! each given the contract that its documentation states.

use vstd::prelude::*;

verus! {

/// The Unicode `White_Space` property, the set of characters that
/// `char::is_whitespace` (and so `str::trim`) treats as whitespace.
pub open spec fn is_white_space(c: char) -> bool {
    let u = c as u32;
    ||| 0x09 <= u <= 0x0D
    ||| u == 0x20
    ||| u == 0x85
    ||| u == 0xA0
    ||| u == 0x1680
    ||| 0x2000 <= u <= 0x200A
    ||| u == 0x2028
    ||| u == 0x2029
    ||| u == 0x202F
    ||| u == 0x205F
    ||| u == 0x3000
}

/// `s` without its leading whitespace.
pub open spec fn trim_start_spec(s: Seq<char>) -> Seq<char>
    decreases s.len(),
{
    if s.len() > 0 && is_white_space(s[0]) {
        trim_start_spec(s.drop_first())
    } else {
        s
    }
}

/// `s` without its trailing whitespace.
pub open spec fn trim_end_spec(s: Seq<char>) -> Seq<char>
    decreases s.len(),
{
    if s.len() > 0 && is_white_space(s.last()) {
        trim_end_spec(s.drop_last())
    } else {
        s
    }
}

/// `s` without leading and trailing whitespace.
pub open spec fn trim_spec(s: Seq<char>) -> Seq<char> {
    trim_end_spec(trim_start_spec(s))
}

/// `s` without the leading run of `c`.
pub open spec fn strip_leading(s: Seq<char>, c: char) -> Seq<char>
    decreases s.len(),
{
    if s.len() > 0 && s[0] == c {
        strip_leading(s.drop_first(), c)
    } else {
        s
    }
}

/// The pieces of `s` between occurrences of `sep`, as `str::split` yields
/// them: `k` separators give `k + 1` pieces, empty ones included.
pub open spec fn split_spec(s: Seq<char>, sep: char) -> Seq<Seq<char>>
    decreases s.len(),
{
    if s.len() == 0 {
        seq![Seq::empty()]
    } else {
        let pieces = split_spec(s.drop_last(), sep);
        if s.last() == sep {
            pieces.push(Seq::empty())
        } else {
            pieces.update(pieces.len() - 1, pieces.last().push(s.last()))
        }
    }
}

/// `str::trim`: the string slice with leading and trailing whitespace
/// removed, whitespace being the Unicode `White_Space` property.
#[verifier::external_body]
pub(crate) fn trim<'a>(s: &'a str) -> (r: &'a str)
    ensures
        r@ == trim_spec(s@),
{
    s.trim()
}

/// `str::trim_start_matches` with a `char` pattern: the slice with every
/// leading occurrence of `c` removed.
#[verifier::external_body]
pub(crate) fn trim_start_char<'a>(s: &'a str, c: char) -> (r: &'a str)
    ensures
        r@ == strip_leading(s@, c),
{
    s.trim_start_matches(c)
}

/// `str::split` with a `char` pattern, collected: the substrings between
/// the occurrences of `sep`, in order.
#[verifier::external_body]
pub(crate) fn split_char<'a>(s: &'a str, sep: char) -> (r: Vec<&'a str>)
    ensures
        r@.len() == split_spec(s@, sep).len(),
        forall|i: int| 0 <= i < r@.len() ==> #[trigger] r@[i]@ == split_spec(s@, sep)[i],
{
    s.split(sep).collect()
}

/// `str::starts_with` with a string pattern.
#[verifier::external_body]
pub(crate) fn starts_with(s: &str, prefix: &str) -> (r: bool)
    ensures
        r == prefix@.is_prefix_of(s@),
{
    s.starts_with(prefix)
}

/// `str::contains` with a `char` pattern.
#[verifier::external_body]
pub(crate) fn contains_char(s: &str, c: char) -> (r: bool)
    ensures
        r == s@.contains(c),
{
    s.contains(c)
}

/// `==` on string slices: equal exactly when the characters are equal.
#[verifier::external_body]
pub(crate) fn str_eq(a: &str, b: &str) -> (r: bool)
    ensures
        r == (a@ == b@),
{
    a == b
}

/// `core::str::from_utf8`: succeeds exactly on valid UTF-8, and then the
/// slice holds the decoded characters.
#[verifier::external_body]
pub(crate) fn from_utf8(bytes: &[u8]) -> (r: Option<&str>)
    ensures
        r is Some <==> vstd::utf8::valid_utf8(bytes@),
        r matches Some(s) ==> s@ == vstd::utf8::decode_utf8(bytes@),
{
    match core::str::from_utf8(bytes) {
        Ok(s) => Some(s),
        Err(_) => None,
    }
}

/// What `trim_start_spec` leaves starts with no whitespace.
pub proof fn lemma_trim_start_clean(s: Seq<char>)
    ensures
        trim_start_spec(s).len() == 0 || !is_white_space(trim_start_spec(s)[0]),
    decreases s.len(),
{
    if s.len() > 0 && is_white_space(s[0]) {
        lemma_trim_start_clean(s.drop_first());
    }
}

/// What `trim_end_spec` leaves is a prefix of `s` that ends in no
/// whitespace.
pub proof fn lemma_trim_end_prefix(s: Seq<char>)
    ensures
        trim_end_spec(s).len() <= s.len(),
        trim_end_spec(s) == s.take(trim_end_spec(s).len() as int),
        trim_end_spec(s).len() == 0 || !is_white_space(trim_end_spec(s).last()),
    decreases s.len(),
{
    if s.len() > 0 && is_white_space(s.last()) {
        lemma_trim_end_prefix(s.drop_last());
        let k = trim_end_spec(s.drop_last()).len() as int;
        assert(s.drop_last().take(k) =~= s.take(k));
    } else {
        assert(s.take(s.len() as int) =~= s);
    }
}

/// Trimming twice is trimming once.
pub proof fn lemma_trim_idempotent(s: Seq<char>)
    ensures
        trim_spec(trim_spec(s)) == trim_spec(s),
{
    let u = trim_start_spec(s);
    let w = trim_end_spec(u);
    lemma_trim_start_clean(s);
    lemma_trim_end_prefix(u);
    if w.len() > 0 {
        assert(w[0] == u[0]);
    }
    assert(trim_start_spec(w) == w);
    assert(trim_end_spec(w) == w);
}

/// Every character of `s` is whitespace.
pub open spec fn all_white(s: Seq<char>) -> bool {
    forall|i: int| 0 <= i < s.len() ==> is_white_space(#[trigger] s[i])
}

proof fn lemma_trim_start_white(a: Seq<char>, s: Seq<char>)
    requires
        all_white(a),
    ensures
        trim_start_spec(a + s) == trim_start_spec(s),
    decreases a.len(),
{
    if a.len() > 0 {
        assert((a + s)[0] == a[0]);
        assert((a + s).drop_first() =~= a.drop_first() + s);
        lemma_trim_start_white(a.drop_first(), s);
    } else {
        assert(a + s =~= s);
    }
}

proof fn lemma_trim_end_white(s: Seq<char>, b: Seq<char>)
    requires
        all_white(b),
    ensures
        trim_end_spec(s + b) == trim_end_spec(s),
    decreases b.len(),
{
    if b.len() > 0 {
        assert((s + b).last() == b.last());
        assert((s + b).drop_last() =~= s + b.drop_last());
        lemma_trim_end_white(s, b.drop_last());
    } else {
        assert(s + b =~= s);
    }
}

proof fn lemma_trim_start_then_white(s: Seq<char>, b: Seq<char>)
    requires
        all_white(b),
    ensures
        trim_start_spec(s).len() > 0 ==> trim_start_spec(s + b) == trim_start_spec(s) + b,
        trim_start_spec(s).len() == 0 ==> trim_start_spec(s + b).len() == 0,
    decreases s.len(),
{
    if s.len() == 0 {
        assert(s + b =~= b);
        lemma_trim_start_white(b, Seq::empty());
        assert(b + Seq::<char>::empty() =~= b);
    } else {
        assert((s + b)[0] == s[0]);
        if is_white_space(s[0]) {
            assert((s + b).drop_first() =~= s.drop_first() + b);
            lemma_trim_start_then_white(s.drop_first(), b);
        }
    }
}

/// Whitespace around a name is ignored: trimming `a + s + b`, with `a`
/// and `b` all whitespace, gives what trimming `s` gives.
pub proof fn lemma_trim_padding(a: Seq<char>, s: Seq<char>, b: Seq<char>)
    requires
        all_white(a),
        all_white(b),
    ensures
        trim_spec(a + s + b) == trim_spec(s),
{
    assert(a + s + b =~= a + (s + b));
    lemma_trim_start_white(a, s + b);
    lemma_trim_start_then_white(s, b);
    let u = trim_start_spec(s);
    if u.len() > 0 {
        lemma_trim_end_white(u, b);
    }
}

} // verus!
