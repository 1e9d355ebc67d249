//! Character-level helpers shared by both dialects: ASCII classification,
//! case folding, whitespace trimming, the escaping rule used by the
//! serializers, decimal digits, and the token location counter.

use vstd::prelude::*;

verus! {

// ---------------------------------------------------------------------------
// Character classes
// ---------------------------------------------------------------------------

/// Whitespace in the ASCII range: space, tab, line feed, vertical tab,
/// form feed, carriage return.
pub open spec fn is_ws(c: char) -> bool {
    c == ' ' || c == '\t' || c == '\n' || c == '\u{b}' || c == '\u{c}' || c == '\r'
}

/// Exec mirror of [`is_ws`].
pub fn is_ws_char(c: char) -> (r: bool)
    ensures
        r == is_ws(c),
{
    c == ' ' || c == '\t' || c == '\n' || c == '\u{b}' || c == '\u{c}' || c == '\r'
}

/// A character inside the ASCII range.
pub open spec fn is_ascii_char(c: char) -> bool {
    (c as u32) < 128
}

/// Exec mirror of [`is_ascii_char`].
pub fn ascii_char(c: char) -> (r: bool)
    ensures
        r == is_ascii_char(c),
{
    (c as u32) < 128
}

// ---------------------------------------------------------------------------
// Case folding
// ---------------------------------------------------------------------------

/// An ASCII upper-case letter folded to lower case; all else unchanged.
pub open spec fn lower_char(c: char) -> char {
    if 'A' <= c && c <= 'Z' {
        ((c as u8) + 32) as char
    } else {
        c
    }
}

/// Case-fold a whole string, character by character.
pub open spec fn lower(s: Seq<char>) -> Seq<char> {
    s.map_values(|c: char| lower_char(c))
}

/// Exec mirror of [`lower_char`].
pub fn to_lower_char(c: char) -> (r: char)
    ensures
        r == lower_char(c),
{
    if 'A' <= c && c <= 'Z' {
        ((c as u8) + 32) as char
    } else {
        c
    }
}

/// Case-fold an owned string.
pub fn lowercase(s: &str) -> (r: String)
    ensures
        r@ == lower(s@),
{
    let cs = str_chars(s);
    let mut out: Vec<char> = Vec::new();
    let mut i: usize = 0;
    while i < cs.len()
        invariant
            i <= cs@.len(),
            cs@ == s@,
            out@ =~= lower(s@).take(i as int),
        decreases cs@.len() - i,
    {
        out.push(to_lower_char(cs[i]));
        proof {
            assert(lower(s@).take(i as int).push(lower_char(s@[i as int])) =~= lower(s@).take(
                i + 1,
            ));
        }
        i += 1;
    }
    proof {
        assert(lower(s@).take(cs@.len() as int) =~= lower(s@));
    }
    chars_to_string(&out)
}

// ---------------------------------------------------------------------------
// String / character-vector conversions
// ---------------------------------------------------------------------------

/// The characters of a string slice, in order.
pub fn str_chars(s: &str) -> (v: Vec<char>)
    ensures
        v@ == s@,
{
    let n = s.unicode_len();
    let mut v: Vec<char> = Vec::new();
    let mut i: usize = 0;
    while i < n
        invariant
            i <= n,
            n == s@.len(),
            v@ =~= s@.take(i as int),
        decreases n - i,
    {
        let c = s.get_char(i);
        v.push(c);
        proof {
            assert(s@.take(i as int).push(s@[i as int]) =~= s@.take(i + 1));
        }
        i += 1;
    }
    proof {
        assert(s@.take(n as int) =~= s@);
    }
    v
}

/// Relies on `String::push`: appends exactly one character to the string.
#[verifier::external_body]
pub fn push_char(s: &mut String, c: char)
    ensures
        final(s)@ == old(s)@.push(c),
{
    s.push(c);
}

/// Build a string out of a character vector.
pub fn chars_to_string(v: &Vec<char>) -> (s: String)
    ensures
        s@ == v@,
{
    let mut s = String::new();
    let mut i: usize = 0;
    while i < v.len()
        invariant
            i <= v@.len(),
            s@ =~= v@.take(i as int),
        decreases v@.len() - i,
    {
        push_char(&mut s, v[i]);
        proof {
            assert(v@.take(i as int).push(v@[i as int]) =~= v@.take(i + 1));
        }
        i += 1;
    }
    proof {
        assert(v@.take(v@.len() as int) =~= v@);
    }
    s
}

/// Append the characters of a string slice onto a character vector.
pub fn append_str_chars(out: &mut Vec<char>, s: &str)
    ensures
        final(out)@ == old(out)@ + s@,
{
    let n = s.unicode_len();
    let mut i: usize = 0;
    while i < n
        invariant
            i <= n,
            n == s@.len(),
            out@ =~= old(out)@ + s@.take(i as int),
        decreases n - i,
    {
        out.push(s.get_char(i));
        proof {
            assert((old(out)@ + s@.take(i as int)).push(s@[i as int]) =~= old(out)@ + s@.take(
                i + 1,
            ));
        }
        i += 1;
    }
    proof {
        assert(old(out)@ + s@.take(n as int) =~= old(out)@ + s@);
    }
}

/// Character-by-character string equality.
pub fn str_eq(a: &str, b: &str) -> (r: bool)
    ensures
        r == (a@ == b@),
{
    let na = a.unicode_len();
    let nb = b.unicode_len();
    if na != nb {
        return false;
    }
    let mut i: usize = 0;
    while i < na
        invariant
            i <= na,
            na == a@.len(),
            na == b@.len(),
            forall|j: int| 0 <= j < i ==> a@[j] == b@[j],
        decreases na - i,
    {
        if a.get_char(i) != b.get_char(i) {
            return false;
        }
        i += 1;
    }
    proof {
        assert(a@ =~= b@);
    }
    true
}

// ---------------------------------------------------------------------------
// Trimming
// ---------------------------------------------------------------------------

/// The string with trailing ASCII whitespace removed.
pub open spec fn trim_end_spec(s: Seq<char>) -> Seq<char>
    decreases s.len(),
{
    if s.len() > 0 && is_ws(s.last()) {
        trim_end_spec(s.drop_last())
    } else {
        s
    }
}

/// The string with leading ASCII whitespace removed.
pub open spec fn trim_start_spec(s: Seq<char>) -> Seq<char>
    decreases s.len(),
{
    if s.len() > 0 && is_ws(s[0]) {
        trim_start_spec(s.drop_first())
    } else {
        s
    }
}

/// The string with whitespace removed from both ends.
pub open spec fn trim_spec(s: Seq<char>) -> Seq<char> {
    trim_start_spec(trim_end_spec(s))
}

/// Remove whitespace from both ends of a character vector.
pub fn trim_chars(cs: Vec<char>) -> (r: Vec<char>)
    ensures
        r@ == trim_spec(cs@),
{
    let mut v = cs;
    let ghost s0 = v@;
    while v.len() > 0 && is_ws_char(v[v.len() - 1])
        invariant
            trim_end_spec(v@) == trim_end_spec(s0),
        decreases v@.len(),
    {
        proof {
            assert(v@.drop_last() =~= v@.take(v@.len() - 1));
        }
        v.pop();
    }
    proof {
        assert(v@ == trim_end_spec(s0));
    }
    let ghost s1 = v@;
    while v.len() > 0 && is_ws_char(v[0])
        invariant
            trim_start_spec(v@) == trim_start_spec(s1),
        decreases v@.len(),
    {
        proof {
            assert(v@.remove(0) =~= v@.drop_first());
        }
        v.remove(0);
    }
    proof {
        assert(v@ == trim_start_spec(s1));
    }
    v
}

// ---------------------------------------------------------------------------
// Escaping (shared by both serializers)
// ---------------------------------------------------------------------------

/// A character that the serializers must wrap in a brace-delimited literal.
pub open spec fn is_special(c: char) -> bool {
    c == ':' || c == '=' || c == '\\' || c == '/' || c == ';' || c == '{' || c == '}' || c == '['
        || c == ']'
}

/// Exec mirror of [`is_special`].
pub fn special_char(c: char) -> (r: bool)
    ensures
        r == is_special(c),
{
    c == ':' || c == '=' || c == '\\' || c == '/' || c == ';' || c == '{' || c == '}' || c == '['
        || c == ']'
}

/// One step of the escaping scan. `esc` records whether a brace-delimited
/// run is currently open; maximal runs of special characters are wrapped in
/// a single `{...}` pair and all other characters pass through verbatim.
pub open spec fn escape_rec(s: Seq<char>, esc: bool) -> Seq<char>
    decreases s.len(),
{
    if s.len() == 0 {
        if esc {
            seq!['}']
        } else {
            Seq::empty()
        }
    } else if is_special(s[0]) {
        (if esc {
            Seq::<char>::empty()
        } else {
            seq!['{']
        }) + seq![s[0]] + escape_rec(s.drop_first(), true)
    } else {
        (if esc {
            seq!['}']
        } else {
            Seq::<char>::empty()
        }) + seq![s[0]] + escape_rec(s.drop_first(), false)
    }
}

/// The serialized form of a string: special characters wrapped in braces.
pub open spec fn escape_text(s: Seq<char>) -> Seq<char> {
    escape_rec(s, false)
}

/// A seq viewed from offset `i`: its head and tail, for unfolding
/// recursive specs inside loops.
pub proof fn lemma_skip_step<A>(s: Seq<A>, i: int)
    requires
        0 <= i < s.len(),
    ensures
        s.skip(i).len() == s.len() - i,
        s.skip(i)[0] == s[i],
        s.skip(i).drop_first() =~= s.skip(i + 1),
{
}

/// Append the escaped form of `cs` onto `out`.
pub fn escape_append(out: &mut Vec<char>, cs: &Vec<char>)
    ensures
        final(out)@ == old(out)@ + escape_text(cs@),
{
    let mut esc = false;
    let mut i: usize = 0;
    proof {
        assert(cs@.skip(0) =~= cs@);
    }
    while i < cs.len()
        invariant
            i <= cs@.len(),
            old(out)@ + escape_text(cs@) == out@ + escape_rec(cs@.skip(i as int), esc),
        decreases cs@.len() - i,
    {
        proof {
            lemma_skip_step(cs@, i as int);
        }
        let c = cs[i];
        if special_char(c) {
            if !esc {
                out.push('{');
                esc = true;
            }
            out.push(c);
        } else {
            if esc {
                out.push('}');
                esc = false;
            }
            out.push(c);
        }
        i += 1;
    }
    proof {
        assert(cs@.skip(cs@.len() as int) =~= Seq::<char>::empty());
    }
    if esc {
        out.push('}');
    }
}

/// The length of the maximal run of special characters at the front.
pub open spec fn special_run(s: Seq<char>) -> int
    decreases s.len(),
{
    if s.len() > 0 && is_special(s[0]) {
        1 + special_run(s.drop_first())
    } else {
        0
    }
}

/// The run length is within bounds, and every character in the run is
/// special while the one after it is not.
pub proof fn lemma_special_run(s: Seq<char>)
    ensures
        0 <= special_run(s) <= s.len(),
        forall|i: int| 0 <= i < special_run(s) ==> is_special(s[i]),
        special_run(s) < s.len() ==> !is_special(s[special_run(s)]),
        s.len() > 0 && is_special(s[0]) ==> special_run(s) >= 1,
    decreases s.len(),
{
    if s.len() > 0 && is_special(s[0]) {
        lemma_special_run(s.drop_first());
        assert forall|i: int| 0 <= i < special_run(s) implies is_special(s[i]) by {
            if i > 0 {
                assert(is_special(s.drop_first()[i - 1]));
            }
        }
    }
}

/// Inside an open brace group, the escape scan copies the whole special
/// run, closes the group, and goes on unescaped.
pub proof fn lemma_escape_open(s: Seq<char>)
    ensures
        escape_rec(s, true) == s.take(special_run(s)) + seq!['}'] + escape_rec(
            s.skip(special_run(s)),
            false,
        ),
    decreases s.len(),
{
    let r = special_run(s);
    if s.len() > 0 && is_special(s[0]) {
        lemma_escape_open(s.drop_first());
        lemma_special_run(s);
        assert(s.drop_first().take(r - 1) =~= s.take(r).drop_first());
        assert(s.drop_first().skip(r - 1) =~= s.skip(r));
        assert(seq![s[0]] + (s.drop_first().take(r - 1) + seq!['}'] + escape_rec(
            s.skip(r),
            false,
        )) =~= s.take(r) + seq!['}'] + escape_rec(s.skip(r), false));
    } else {
        assert(s.take(0) =~= Seq::<char>::empty());
        assert(s.skip(0) =~= s);
        if s.len() == 0 {
            assert(s.take(0) + seq!['}'] + escape_rec(s.skip(0), false) =~= seq!['}']);
        } else {
            assert(s.take(0) + seq!['}'] + escape_rec(s.skip(0), false) =~= seq!['}']
                + escape_rec(s, false));
            assert(escape_rec(s, true) =~= seq!['}'] + seq![s[0]] + escape_rec(
                s.drop_first(),
                false,
            ));
            assert(seq!['}'] + escape_rec(s, false) =~= seq!['}'] + seq![s[0]] + escape_rec(
                s.drop_first(),
                false,
            ));
        }
    }
}

/// A string that opens with a special character escapes to a single brace
/// group around its special run, followed by the escaped rest.
pub proof fn lemma_escape_group(s: Seq<char>)
    requires
        s.len() > 0,
        is_special(s[0]),
    ensures
        escape_text(s) == seq!['{'] + s.take(special_run(s)) + seq!['}'] + escape_rec(
            s.skip(special_run(s)),
            false,
        ),
{
    let r = special_run(s);
    lemma_special_run(s);
    lemma_escape_open(s.drop_first());
    assert(s.drop_first().take(r - 1) =~= s.take(r).drop_first());
    assert(s.drop_first().skip(r - 1) =~= s.skip(r));
    assert(seq!['{'] + seq![s[0]] + (s.take(r).drop_first() + seq!['}'] + escape_rec(
        s.skip(r),
        false,
    )) =~= seq!['{'] + s.take(r) + seq!['}'] + escape_rec(s.skip(r), false));
}

/// Trimming does nothing to a string with no whitespace at either end.
pub proof fn lemma_trim_noop(s: Seq<char>)
    requires
        s.len() > 0 ==> !is_ws(s[0]) && !is_ws(s.last()),
    ensures
        trim_spec(s) == s,
{
}

/// Case folding does nothing to a string with no upper-case ASCII.
pub proof fn lemma_lower_noop(s: Seq<char>)
    requires
        forall|i: int| 0 <= i < s.len() ==> !('A' <= s[i] && s[i] <= 'Z'),
    ensures
        lower(s) == s,
{
    assert forall|i: int| 0 <= i < s.len() implies lower(s)[i] == s[i] by {
        assert(lower(s)[i] == lower_char(s[i]));
    }
    assert(lower(s) =~= s);
}

// ---------------------------------------------------------------------------
// Decimal digits
// ---------------------------------------------------------------------------

/// A decimal digit character.
pub open spec fn is_digit(c: char) -> bool {
    '0' <= c && c <= '9'
}

/// The numeric value of a digit character.
pub open spec fn digit_val(c: char) -> int {
    (c as u32) - 48
}

/// Every character of the string is a decimal digit.
pub open spec fn all_digits(s: Seq<char>) -> bool {
    forall|i: int| 0 <= i < s.len() ==> is_digit(s[i])
}

/// The numeric value of a digit string, most significant digit first.
pub open spec fn dec_val(s: Seq<char>) -> int
    decreases s.len(),
{
    if s.len() == 0 {
        0
    } else {
        dec_val(s.drop_last()) * 10 + digit_val(s.last())
    }
}

/// A digit string has a non-negative value.
pub proof fn lemma_dec_val_nonneg(s: Seq<char>)
    requires
        all_digits(s),
    ensures
        dec_val(s) >= 0,
    decreases s.len(),
{
    if s.len() > 0 {
        assert(all_digits(s.drop_last()));
        lemma_dec_val_nonneg(s.drop_last());
    }
}

/// One more digit multiplies the prefix value by ten and adds the digit.
pub proof fn lemma_dec_val_step(s: Seq<char>, i: int)
    requires
        0 <= i < s.len(),
    ensures
        dec_val(s.take(i + 1)) == dec_val(s.take(i)) * 10 + digit_val(s[i]),
{
    assert(s.take(i + 1).drop_last() =~= s.take(i));
    assert(s.take(i + 1).last() == s[i]);
}

/// A prefix of a digit string is worth no more than the whole.
pub proof fn lemma_dec_val_mono(s: Seq<char>, i: int)
    requires
        all_digits(s),
        0 <= i <= s.len(),
    ensures
        dec_val(s.take(i)) <= dec_val(s),
    decreases s.len() - i,
{
    if i < s.len() {
        lemma_dec_val_step(s, i);
        assert(all_digits(s.take(i)));
        lemma_dec_val_nonneg(s.take(i));
        lemma_dec_val_mono(s, i + 1);
    } else {
        assert(s.take(i) =~= s);
    }
}

/// The digit character for a value in `[0, 9]`.
pub open spec fn digit_char(d: int) -> char {
    ((d + 48) as u8) as char
}

/// The decimal representation of a non-negative number, no leading zeros.
pub open spec fn dec_str(n: int) -> Seq<char>
    decreases n,
{
    if n < 0 {
        Seq::empty()
    } else if n < 10 {
        seq![digit_char(n)]
    } else {
        dec_str(n / 10).push(digit_char(n % 10))
    }
}

/// The decimal representation is all digits, non-empty, and reads back to
/// the same value.
pub proof fn lemma_dec_str_val(n: int)
    requires
        n >= 0,
    ensures
        dec_str(n).len() > 0,
        all_digits(dec_str(n)),
        dec_val(dec_str(n)) == n,
    decreases n,
{
    if n < 10 {
        assert((((n + 48) as u8) as char) as u32 == n + 48);
        assert(is_digit(digit_char(n)));
        let s = dec_str(n);
        assert(s.last() == digit_char(n));
        assert(s.drop_last() =~= Seq::<char>::empty());
        assert(dec_val(s) == dec_val(s.drop_last()) * 10 + digit_val(s.last()));
        assert(dec_val(Seq::<char>::empty()) == 0);
    } else {
        lemma_dec_str_val(n / 10);
        assert(is_digit(digit_char(n % 10)));
        assert(dec_str(n).drop_last() =~= dec_str(n / 10));
        assert(dec_str(n).last() == digit_char(n % 10));
        assert(dec_val(dec_str(n)) == (n / 10) * 10 + n % 10);
    }
}

// ---------------------------------------------------------------------------
// Token locations
// ---------------------------------------------------------------------------

/// Tracks the character column a token starts at. Informational only;
/// preserved for future diagnostics.
#[derive(Clone, Copy)]
pub struct Location {
    /// Characters of input consumed before this point.
    pub column: usize,
}

impl Location {
    /// The start of the input.
    pub fn new() -> (l: Location)
        ensures
            l.column == 0,
    {
        Location { column: 0 }
    }

    /// Advance past `n` consumed characters.
    pub fn advance(&mut self, n: usize)
        requires
            old(self).column + n <= usize::MAX,
        ensures
            final(self).column == old(self).column + n,
    {
        self.column = self.column + n;
    }
}

} // verus!
