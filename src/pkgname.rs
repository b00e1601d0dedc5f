use vstd::prelude::*;

verus! {

pub open spec fn is_digit(c: char) -> bool {
    '0' <= c <= '9'
}

pub open spec fn is_upper(c: char) -> bool {
    'A' <= c <= 'Z'
}

/// A character that may stand in a component: an ASCII letter or digit, or `_`.
pub open spec fn is_name_char(c: char) -> bool {
    c == '_' || is_digit(c) || is_upper(c) || 'a' <= c <= 'z'
}

/// Two separators follow each other somewhere in `s`.
pub open spec fn has_adjacent_dots(s: Seq<char>) -> bool {
    exists|i: int| 0 <= i && i + 1 < s.len() && #[trigger] s[i] == '.' && s[i + 1] == '.'
}

/// Position `i` is the first character of a component.
pub open spec fn starts_component(s: Seq<char>, i: int) -> bool {
    i == 0 || s[i - 1] == '.'
}

/// A component starts with a digit at `i`.
pub open spec fn digit_led_at(s: Seq<char>, i: int) -> bool {
    starts_component(s, i) && is_digit(s[i])
}

/// The character at `i` is neither a separator nor a name character.
pub open spec fn foreign_at(s: Seq<char>, i: int) -> bool {
    s[i] != '.' && !is_name_char(s[i])
}

pub open spec fn fault_at(s: Seq<char>, i: int) -> bool {
    digit_led_at(s, i) || foreign_at(s, i)
}

/// The package-name grammar: components of ASCII letters, digits and `_`
/// separated by single dots, no component starting with a digit.
pub open spec fn is_valid_pkgname(s: Seq<char>) -> bool {
    !has_adjacent_dots(s) && forall|i: int| 0 <= i < s.len() ==> !fault_at(s, i)
}

/// The first position at or after `i` where the grammar is broken, or the
/// length of `s`.
pub open spec fn first_fault(s: Seq<char>, i: int) -> int
    decreases s.len() - i,
{
    if i < 0 || i >= s.len() {
        s.len() as int
    } else if fault_at(s, i) {
        i
    } else {
        first_fault(s, i + 1)
    }
}

/// The message for a name that breaks the grammar: separators first, then
/// the first faulty position decides.
pub open spec fn pkgname_error(s: Seq<char>) -> Seq<char> {
    if has_adjacent_dots(s) {
        "Input package name contains more than one separator per complement"@
    } else if digit_led_at(s, first_fault(s, 0)) {
        "First character after a '.' should never be a number"@
    } else {
        "Package name can only contain alphanumerical characters or '_'"@
    }
}

/// `l` is `c` with an ASCII capital letter made small.
pub open spec fn lowered(c: char, l: char) -> bool {
    if is_upper(c) {
        l as u32 == c as u32 + 32
    } else {
        l == c
    }
}

/// Relies on str::to_ascii_lowercase: each of 'A'..='Z' becomes its small
/// letter, every other character stays as it is.
#[verifier::external_body]
fn ascii_lowercase(s: &str) -> (r: String)
    ensures
        r@.len() == s@.len(),
        forall|i: int| 0 <= i < s@.len() ==> lowered(s@[i], #[trigger] r@[i]),
{
    s.to_ascii_lowercase()
}

proof fn lemma_first_fault(s: Seq<char>, i: int)
    requires
        0 <= i <= s.len(),
    ensures
        i <= first_fault(s, i) <= s.len(),
        first_fault(s, i) < s.len() ==> fault_at(s, first_fault(s, i)),
        forall|k: int| i <= k < first_fault(s, i) ==> !fault_at(s, k),
    decreases s.len() - i,
{
    if i < s.len() && !fault_at(s, i) {
        lemma_first_fault(s, i + 1);
    }
}

/// Checks a package name against the grammar and returns it in lower case.
pub fn validate_pkgname(pkgname: &str) -> (r: Result<String, String>)
    ensures
        r is Ok <==> is_valid_pkgname(pkgname@),
        r matches Ok(v) ==> v@.len() == pkgname@.len() && forall|i: int|
            0 <= i < pkgname@.len() ==> lowered(pkgname@[i], #[trigger] v@[i]),
        r matches Err(e) ==> e@ == pkgname_error(pkgname@),
{
    let n = pkgname.unicode_len();
    let mut i: usize = 0;
    while i < n
        invariant
            n == pkgname@.len(),
            i <= n,
            forall|k: int| 0 <= k < i && k + 1 < n ==> !(#[trigger] pkgname@[k] == '.' && pkgname@[k + 1] == '.'),
        decreases n - i,
    {
        if i + 1 < n && pkgname.get_char(i) == '.' && pkgname.get_char(i + 1) == '.' {
            return Err(String::from_str("Input package name contains more than one separator per complement"));
        }
        i = i + 1;
    }
    assert(!has_adjacent_dots(pkgname@));
    proof {
        lemma_first_fault(pkgname@, 0);
    }
    let mut j: usize = 0;
    let mut prev_dot = true;
    while j < n
        invariant
            n == pkgname@.len(),
            j <= n,
            prev_dot == starts_component(pkgname@, j as int),
            !has_adjacent_dots(pkgname@),
            0 <= first_fault(pkgname@, 0) <= n,
            first_fault(pkgname@, 0) < n ==> fault_at(pkgname@, first_fault(pkgname@, 0)),
            forall|k: int| 0 <= k < first_fault(pkgname@, 0) ==> !fault_at(pkgname@, k),
            forall|k: int| 0 <= k < j ==> !fault_at(pkgname@, k),
        decreases n - j,
    {
        let c = pkgname.get_char(j);
        let digit = '0' <= c && c <= '9';
        if prev_dot && digit {
            assert(fault_at(pkgname@, j as int));
            assert(first_fault(pkgname@, 0) == j);
            return Err(String::from_str("First character after a '.' should never be a number"));
        }
        if c != '.' && !(c == '_' || digit || ('A' <= c && c <= 'Z') || ('a' <= c && c <= 'z')) {
            assert(fault_at(pkgname@, j as int));
            assert(first_fault(pkgname@, 0) == j);
            return Err(String::from_str("Package name can only contain alphanumerical characters or '_'"));
        }
        prev_dot = c == '.';
        j = j + 1;
    }
    Ok(ascii_lowercase(pkgname))
}

} // verus!
