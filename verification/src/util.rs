//! Text utilities: title casing and the root-marker substitution applied to
//! rendered output.
//!
//! Word characters are modelled as ASCII letters, digits and `_`.

use vstd::prelude::*;

use crate::text::push_char;

verus! {

broadcast use vstd::seq::group_seq_axioms;

/// An ASCII word character: letter, digit or underscore.
pub open spec fn is_word_char(c: char) -> bool {
    ('a' <= c && c <= 'z') || ('A' <= c && c <= 'Z') || ('0' <= c && c <= '9') || c == '_'
}

/// An ASCII lowercase letter mapped to its uppercase form; all else unchanged.
pub open spec fn upper_char(c: char) -> char {
    if 'a' <= c && c <= 'z' {
        ((c as u32) - 32) as char
    } else {
        c
    }
}

/// The title-cased form of a string: every word character that starts a word
/// (at the start of the string, or after a non-word character) is uppercased.
pub open spec fn title_case_spec(s: Seq<char>) -> Seq<char> {
    Seq::new(
        s.len(),
        |i: int|
            if is_word_char(s[i]) && (i == 0 || !is_word_char(s[i - 1])) {
                upper_char(s[i])
            } else {
                s[i]
            },
    )
}

fn exec_is_word_char(c: char) -> (r: bool)
    ensures
        r == is_word_char(c),
{
    ('a' <= c && c <= 'z') || ('A' <= c && c <= 'Z') || ('0' <= c && c <= '9') || c == '_'
}

fn exec_upper_char(c: char) -> (r: char)
    ensures
        r == upper_char(c),
{
    match c {
        'a' => 'A',
        'b' => 'B',
        'c' => 'C',
        'd' => 'D',
        'e' => 'E',
        'f' => 'F',
        'g' => 'G',
        'h' => 'H',
        'i' => 'I',
        'j' => 'J',
        'k' => 'K',
        'l' => 'L',
        'm' => 'M',
        'n' => 'N',
        'o' => 'O',
        'p' => 'P',
        'q' => 'Q',
        'r' => 'R',
        's' => 'S',
        't' => 'T',
        'u' => 'U',
        'v' => 'V',
        'w' => 'W',
        'x' => 'X',
        'y' => 'Y',
        'z' => 'Z',
        other => other,
    }
}

/// Transforms the given text to title case.
pub fn title_case(input: &str) -> (r: String)
    ensures
        r@ == title_case_spec(input@),
{
    let n = input.unicode_len();
    let mut r = String::new();
    let mut i: usize = 0;
    while i < n
        invariant
            n == input@.len(),
            i <= n,
            r@ =~= title_case_spec(input@).take(i as int),
        decreases n - i,
    {
        let c = input.get_char(i);
        let word_start = exec_is_word_char(c) && (i == 0 || !exec_is_word_char(
            input.get_char(i - 1),
        ));
        if word_start {
            push_char(&mut r, exec_upper_char(c));
        } else {
            push_char(&mut r, c);
        }
        proof {
            assert(r@ =~= title_case_spec(input@).take(i + 1));
        }
        i += 1;
    }
    proof {
        assert(title_case_spec(input@).take(n as int) =~= title_case_spec(input@));
    }
    r
}

/// Whether the root marker `%ROOT%` stands at position `i` of `s`.
pub open spec fn marker_at(s: Seq<char>, i: int) -> bool {
    &&& i + 6 <= s.len()
    &&& s[i] == '%'
    &&& s[i + 1] == 'R'
    &&& s[i + 2] == 'O'
    &&& s[i + 3] == 'O'
    &&& s[i + 4] == 'T'
    &&& s[i + 5] == '%'
}

/// `s` with every `%ROOT%` marker, together with one directly following `/`,
/// replaced by `u`, scanning left to right.
pub open spec fn replace_root(s: Seq<char>, u: Seq<char>) -> Seq<char>
    decreases s.len(),
{
    if marker_at(s, 0) {
        if s.len() >= 7 && s[6] == '/' {
            u + replace_root(s.skip(7), u)
        } else {
            u + replace_root(s.skip(6), u)
        }
    } else if s.len() == 0 {
        Seq::empty()
    } else {
        seq![s[0]] + replace_root(s.drop_first(), u)
    }
}

/// Replaces every occurrence of `%ROOT%`, with an optional trailing `/`, by
/// the given root URL.
pub fn replace_root_marker(s: &str, root_url: &str) -> (r: String)
    ensures
        r@ == replace_root(s@, root_url@),
{
    let n = s.unicode_len();
    let mut r = String::new();
    let mut i: usize = 0;
    proof {
        assert(s@.skip(0) =~= s@);
        assert(r@ + replace_root(s@, root_url@) =~= replace_root(s@, root_url@));
    }
    while i < n
        invariant
            n == s@.len(),
            i <= n,
            replace_root(s@, root_url@) == r@ + replace_root(s@.skip(i as int), root_url@),
        decreases n - i,
    {
        let is_marker = n - i >= 6 && s.get_char(i) == '%' && s.get_char(i + 1) == 'R'
            && s.get_char(i + 2) == 'O' && s.get_char(i + 3) == 'O' && s.get_char(i + 4) == 'T'
            && s.get_char(i + 5) == '%';
        let ghost pre = r@;
        let ghost rem = s@.skip(i as int);
        if is_marker {
            proof {
                assert(marker_at(rem, 0));
            }
            r.append(root_url);
            if n - i >= 7 && s.get_char(i + 6) == '/' {
                proof {
                    assert(rem.len() >= 7 && rem[6] == '/');
                    assert(rem.skip(7) =~= s@.skip(i + 7));
                }
                i += 7;
            } else {
                proof {
                    assert(!(rem.len() >= 7 && rem[6] == '/'));
                    assert(rem.skip(6) =~= s@.skip(i + 6));
                }
                i += 6;
            }
        } else {
            proof {
                assert(!marker_at(rem, 0));
                assert(rem.len() > 0);
                assert(rem.drop_first() =~= s@.skip(i + 1));
                assert(seq![rem[0]] =~= seq![s@[i as int]]);
            }
            push_char(&mut r, s.get_char(i));
            i += 1;
        }
    }
    proof {
        assert(s@.skip(n as int) =~= Seq::<char>::empty());
        assert(replace_root(Seq::<char>::empty(), root_url@) == Seq::<char>::empty());
        assert(r@ =~= r@ + Seq::<char>::empty());
    }
    r
}

/// Whether a UTF-8 byte is percent-escaped in a URL fragment: every
/// non-ASCII byte, the controls, space, `"`, `<`, `>` and the backquote.
pub open spec fn frag_needs_escape(b: u8) -> bool {
    b >= 0x7f || b <= 0x1f || b == 0x20 || b == 0x22 || b == 0x3c || b == 0x3e || b == 0x60
}

/// The uppercase hexadecimal digit for a value below 16.
pub open spec fn hex_upper(n: u8) -> char {
    if n < 10 {
        ((n + 0x30) as u32) as char
    } else {
        ((n + 0x37) as u32) as char
    }
}

/// One byte of fragment output: `%XX` for an escaped byte, the byte itself
/// otherwise.
pub open spec fn frag_escape_byte(b: u8) -> Seq<char> {
    if frag_needs_escape(b) {
        seq!['%', hex_upper(b / 16), hex_upper(b % 16)]
    } else {
        seq![b as char]
    }
}

/// A byte sequence percent-escaped for a URL fragment.
pub open spec fn frag_escape_bytes(bs: Seq<u8>) -> Seq<char>
    decreases bs.len(),
{
    if bs.len() == 0 {
        Seq::empty()
    } else {
        frag_escape_byte(bs[0]) + frag_escape_bytes(bs.drop_first())
    }
}

/// A string percent-escaped for use as a URL fragment: its UTF-8 bytes,
/// escaped byte by byte.
pub open spec fn escaped_fragment(s: Seq<char>) -> Seq<char> {
    frag_escape_bytes(vstd::utf8::encode_utf8(s))
}

/// Relies on `url_escape::encode_fragment`: percent-escapes, byte by byte
/// of the UTF-8 form, the fragment set (controls, space, `"`, `<`, `>`,
/// backquote) and every non-ASCII byte, leaving all other bytes as they
/// are; already-escaped `%XX` sequences pass through unchanged since `%`
/// is not in the set.
#[verifier::external_body]
pub fn encode_fragment(s: &str) -> (r: String)
    ensures
        r@ == escaped_fragment(s@),
{
    url_escape::encode_fragment(s).into_owned()
}

} // verus!
