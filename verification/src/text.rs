use vstd::prelude::*;
use vstd::string::*;

verus! {

// Subcategory names are restricted to ASCII letters, digits and underscores,
// so case-insensitive handling only needs ASCII case mapping.

pub open spec fn is_upper_char(c: char) -> bool {
    'A' <= c && c <= 'Z'
}

pub open spec fn is_lower_char(c: char) -> bool {
    'a' <= c && c <= 'z'
}

pub open spec fn is_digit_char(c: char) -> bool {
    '0' <= c && c <= '9'
}

pub open spec fn is_label_start(c: char) -> bool {
    is_upper_char(c) || is_lower_char(c)
}

pub open spec fn is_label_char(c: char) -> bool {
    is_upper_char(c) || is_lower_char(c) || is_digit_char(c) || c == '_'
}

/// A valid subcategory label: nonempty, starts with a letter, and contains
/// only letters, digits and underscores.
pub open spec fn is_valid_label(s: Seq<char>) -> bool {
    &&& s.len() > 0
    &&& is_label_start(s[0])
    &&& forall|i: int| 0 <= i < s.len() ==> is_label_char(#[trigger] s[i])
}

pub open spec fn lower_char(c: char) -> char {
    if is_upper_char(c) {
        (c as u8 + 32) as char
    } else {
        c
    }
}

pub open spec fn upper_char(c: char) -> char {
    if is_lower_char(c) {
        (c as u8 - 32) as char
    } else {
        c
    }
}

pub open spec fn lower_seq(s: Seq<char>) -> Seq<char> {
    s.map_values(|c: char| lower_char(c))
}

/// Title case as stored for user-created subcategories: the first character
/// uppercased, every later character lowercased.
pub open spec fn title_seq(s: Seq<char>) -> Seq<char> {
    if s.len() == 0 {
        s
    } else {
        seq![upper_char(lower_char(s[0]))].add(lower_seq(s).subrange(1, s.len() as int))
    }
}

fn lower_char_exec(c: char) -> (r: char)
    ensures
        r == lower_char(c),
{
    if 'A' <= c && c <= 'Z' {
        (c as u8 + 32) as char
    } else {
        c
    }
}

fn upper_char_exec(c: char) -> (r: char)
    ensures
        r == upper_char(c),
{
    if 'a' <= c && c <= 'z' {
        (c as u8 - 32) as char
    } else {
        c
    }
}

/// ASCII-lowercases a string.
pub fn to_lowercase(s: &str) -> (r: String)
    ensures
        r@ == lower_seq(s@),
{
    let n: usize = s.unicode_len();
    let mut out = String::new();
    let mut i: usize = 0;
    while i < n
        invariant
            n == s@.len(),
            0 <= i <= n,
            out@ == lower_seq(s@.subrange(0, i as int)),
        decreases n - i,
    {
        let c = lower_char_exec(s.get_char(i));
        push_char(&mut out, c);
        proof {
            assert(lower_seq(s@.subrange(0, i + 1 as int)) =~= lower_seq(
                s@.subrange(0, i as int),
            ).push(lower_char(s@[i as int])));
        }
        i = i + 1;
    }
    proof {
        assert(s@.subrange(0, n as int) =~= s@);
    }
    out
}

/// Converts a string to its stored Title Case form: first character
/// uppercased, the rest lowercased.
pub fn to_title_case(s: &str) -> (r: String)
    ensures
        r@ == title_seq(s@),
{
    let n: usize = s.unicode_len();
    let mut out = String::new();
    if n == 0 {
        proof {
            assert(title_seq(s@) =~= out@);
        }
        return out;
    }
    let first = upper_char_exec(lower_char_exec(s.get_char(0)));
    push_char(&mut out, first);
    let mut i: usize = 1;
    while i < n
        invariant
            n == s@.len(),
            n > 0,
            1 <= i <= n,
            out@ == seq![upper_char(lower_char(s@[0]))].add(
                lower_seq(s@).subrange(1, i as int),
            ),
        decreases n - i,
    {
        let c = lower_char_exec(s.get_char(i));
        push_char(&mut out, c);
        proof {
            assert(lower_seq(s@).subrange(1, i + 1 as int) =~= lower_seq(s@).subrange(
                1,
                i as int,
            ).push(lower_char(s@[i as int])));
            assert(out@ =~= seq![upper_char(lower_char(s@[0]))].add(
                lower_seq(s@).subrange(1, i + 1 as int),
            ));
        }
        i = i + 1;
    }
    proof {
        assert(out@ =~= title_seq(s@));
    }
    out
}

/// Checks whether a string is a valid subcategory label.
pub fn check_label(s: &str) -> (r: bool)
    ensures
        r == is_valid_label(s@),
{
    let n: usize = s.unicode_len();
    if n == 0 {
        return false;
    }
    let mut i: usize = 0;
    while i < n
        invariant
            n == s@.len(),
            n > 0,
            0 <= i <= n,
            forall|j: int| 0 <= j < i ==> is_label_char(#[trigger] s@[j]),
            i > 0 ==> is_label_start(s@[0]),
        decreases n - i,
    {
        let c = s.get_char(i);
        let is_letter = ('A' <= c && c <= 'Z') || ('a' <= c && c <= 'z');
        if i == 0 {
            if !is_letter {
                return false;
            }
        } else {
            if !(is_letter || ('0' <= c && c <= '9') || c == '_') {
                return false;
            }
        }
        i = i + 1;
    }
    true
}

/// Compares two string slices character by character.
pub fn str_eq(a: &str, b: &str) -> (r: bool)
    ensures
        r == (a@ == b@),
{
    let na: usize = a.unicode_len();
    let nb: usize = b.unicode_len();
    if na != nb {
        return false;
    }
    let mut i: usize = 0;
    while i < na
        invariant
            na == a@.len(),
            nb == b@.len(),
            na == nb,
            0 <= i <= na,
            forall|j: int| 0 <= j < i ==> a@[j] == b@[j],
        decreases na - i,
    {
        if a.get_char(i) != b.get_char(i) {
            return false;
        }
        i = i + 1;
    }
    proof {
        assert(a@ =~= b@);
    }
    true
}

/// Relies on `String::push`: appends one character to the string.
#[verifier::external_body]
pub fn push_char(s: &mut String, c: char)
    ensures
        final(s)@ == old(s)@.push(c),
{
    s.push(c)
}

/// Lowercasing after title-casing gives the same result as lowercasing.
pub proof fn lemma_lower_title(s: Seq<char>)
    ensures
        lower_seq(title_seq(s)) == lower_seq(s),
{
    if s.len() == 0 {
        assert(lower_seq(title_seq(s)) =~= lower_seq(s));
    } else {
        let t = title_seq(s);
        assert(t.len() == s.len());
        assert forall|i: int| 0 <= i < s.len() implies #[trigger] lower_seq(t)[i] == lower_seq(
            s,
        )[i] by {
            if i == 0 {
                assert(t[0] == upper_char(lower_char(s[0])));
                assert(lower_char(upper_char(lower_char(s[0]))) == lower_char(s[0]));
            } else {
                assert(t[i] == lower_seq(s).subrange(1, s.len() as int)[i - 1]);
                assert(t[i] == lower_char(s[i]));
                assert(lower_char(lower_char(s[i])) == lower_char(s[i]));
            }
        }
        assert(lower_seq(t) =~= lower_seq(s));
    }
}

} // verus!
