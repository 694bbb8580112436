use vstd::prelude::*;
use vstd::string::StrSliceExecFns;
use vstd::utf8::is_ascii_chars;

verus! {

/// A comparison key: the lowercase ASCII letters of a name, in order.
pub type Key = Vec<u8>;

/// What `unidecode::unidecode` makes of a string.
pub uninterp spec fn transliteration(s: Seq<char>) -> Seq<char>;

/// Relies on `unidecode::unidecode`: its result is a function of the input
/// alone, is valid ASCII, and maps every ASCII character to itself (so an
/// ASCII string comes back unchanged).
#[verifier::external_body]
fn transliterate(s: &str) -> (r: String)
    ensures
        r@ == transliteration(s@),
        is_ascii_chars(r@),
        is_ascii_chars(s@) ==> r@ == s@,
{
    unidecode::unidecode(s)
}

/// Relies on `String::push`: appends one character.
#[verifier::external_body]
fn push_char(s: &mut String, c: char)
    ensures
        final(s)@ == old(s)@.push(c),
{
    s.push(c)
}

/// Relies on `String::pop`: removes and returns the last character.
#[verifier::external_body]
fn pop_char(s: &mut String) -> (r: Option<char>)
    ensures
        old(s)@.len() == 0 ==> r is None && final(s)@ == old(s)@,
        old(s)@.len() > 0 ==> r == Some(old(s)@.last()) && final(s)@ == old(s)@.drop_last(),
{
    s.pop()
}

pub open spec fn is_lower(c: char) -> bool {
    'a' <= c && c <= 'z'
}

pub open spec fn is_upper(c: char) -> bool {
    'A' <= c && c <= 'Z'
}

pub open spec fn is_digit(c: char) -> bool {
    '0' <= c && c <= '9'
}

pub open spec fn is_alpha(c: char) -> bool {
    is_lower(c) || is_upper(c)
}

pub open spec fn is_alnum(c: char) -> bool {
    is_alpha(c) || is_digit(c)
}

/// A word separator: ASCII whitespace (as `char::is_whitespace` has it,
/// vertical tab included), a hyphen or a slash.
pub open spec fn is_separator(c: char) -> bool {
    c == ' ' || c == '\t' || c == '\n' || c == '\x0B' || c == '\x0C' || c == '\r' || c == '-'
        || c == '/'
}

pub open spec fn upper(c: char) -> char {
    if is_lower(c) {
        ((c as u8) - 32) as u8 as char
    } else {
        c
    }
}

pub open spec fn lower(c: char) -> char {
    if is_upper(c) {
        ((c as u8) + 32) as u8 as char
    } else {
        c
    }
}

/// One character of the scan: the output so far and the "word boundary
/// pending" flag, updated by character `c`.
pub open spec fn scan_step(out: Seq<char>, brk: bool, c: char) -> (Seq<char>, bool) {
    if is_alnum(c) {
        (out.push(upper(c)), false)
    } else if c == '&' {
        let spaced = if brk {
            out
        } else {
            out.push(' ')
        };
        (spaced + seq!['A', 'N', 'D', ' '], true)
    } else if is_separator(c) {
        if brk {
            (out, true)
        } else {
            (out.push(' '), true)
        }
    } else {
        (out, brk)
    }
}

/// The left-to-right scan over `s`, starting at a pending boundary.
pub open spec fn scan(s: Seq<char>) -> (Seq<char>, bool)
    decreases s.len(),
{
    if s.len() == 0 {
        (Seq::empty(), true)
    } else {
        let (out, brk) = scan(s.drop_last());
        scan_step(out, brk, s.last())
    }
}

/// The canonical form of already transliterated text: the scan, with one
/// trailing space trimmed.
pub open spec fn canon(s: Seq<char>) -> Seq<char> {
    let out = scan(s).0;
    if out.len() > 0 && out.last() == ' ' {
        out.drop_last()
    } else {
        out
    }
}

/// What `normalize` returns for `s`.
pub open spec fn normalized(s: Seq<char>) -> Seq<char> {
    canon(transliteration(s))
}

/// Text in canonical shape: uppercase letters, digits and single spaces,
/// never a space at the start or two in a row.
pub open spec fn canonical_shape(o: Seq<char>) -> bool {
    forall|i: int|
        0 <= i < o.len() ==> (is_upper(#[trigger] o[i]) || is_digit(o[i]) || (o[i] == ' ' && i > 0
            && o[i - 1] != ' '))
}

pub open spec fn key_char_spec(c: char) -> Option<u8> {
    if is_alpha(c) {
        Some(lower(c) as u8)
    } else {
        None
    }
}

/// The comparison key of `s`: its ASCII letters, lowercased, in order.
pub open spec fn key_of(s: Seq<char>) -> Seq<u8>
    decreases s.len(),
{
    if s.len() == 0 {
        Seq::empty()
    } else {
        match key_char_spec(s.last()) {
            Some(b) => key_of(s.drop_last()).push(b),
            None => key_of(s.drop_last()),
        }
    }
}

fn is_alnum_char(c: char) -> (r: bool)
    ensures
        r == is_alnum(c),
{
    ('a' <= c && c <= 'z') || ('A' <= c && c <= 'Z') || ('0' <= c && c <= '9')
}

fn is_separator_char(c: char) -> (r: bool)
    ensures
        r == is_separator(c),
{
    c == ' ' || c == '\t' || c == '\n' || c == '\x0B' || c == '\x0C' || c == '\r' || c == '-'
        || c == '/'
}

fn upper_char(c: char) -> (r: char)
    ensures
        r == upper(c),
{
    if 'a' <= c && c <= 'z' {
        ((c as u8) - 32) as char
    } else {
        c
    }
}

/// Canonicalizes text that is already transliterated to ASCII: letters and
/// digits are kept (uppercased), `&` becomes the word `AND`, each run of
/// whitespace, `-` and `/` becomes one space between words, and everything
/// else is dropped.
pub fn canonicalize(s: &str) -> (r: String)
    ensures
        r@ == canon(s@),
{
    let n = s.unicode_len();
    let mut out = String::new();
    let mut brk = true;
    let mut i: usize = 0;
    while i < n
        invariant
            n == s@.len(),
            i <= n,
            (out@, brk) == scan(s@.take(i as int)),
        decreases n - i,
    {
        let c = s.get_char(i);
        assert(s@.take(i + 1).drop_last() == s@.take(i as int));
        if is_alnum_char(c) {
            push_char(&mut out, upper_char(c));
            brk = false;
        } else if c == '&' {
            if !brk {
                push_char(&mut out, ' ');
            }
            let ghost before = out@;
            push_char(&mut out, 'A');
            push_char(&mut out, 'N');
            push_char(&mut out, 'D');
            push_char(&mut out, ' ');
            assert(out@ == before + seq!['A', 'N', 'D', ' ']);
            brk = true;
        } else if is_separator_char(c) {
            if !brk {
                push_char(&mut out, ' ');
                brk = true;
            }
        }
        i = i + 1;
    }
    assert(s@.take(n as int) == s@);
    let len = out.as_str().unicode_len();
    if len > 0 && out.as_str().get_char(len - 1) == ' ' {
        pop_char(&mut out);
    }
    out
}

/// Converts a Unicode string into a form suitable for wordlists: it is
/// transliterated to ASCII, then canonicalized. The result holds only ASCII
/// uppercase letters, digits and single spaces between words.
pub fn normalize(s: &str) -> (r: String)
    ensures
        r@ == normalized(s@),
        canonical_shape(r@),
        is_ascii_chars(r@),
        is_ascii_chars(s@) ==> r@ == canon(s@),
{
    let dec = transliterate(s);
    let r = canonicalize(dec.as_str());
    proof {
        lemma_canon_shape(dec@);
    }
    r
}

fn key_char(c: char) -> (r: Option<u8>)
    ensures
        r == key_char_spec(c),
{
    if 'a' <= c && c <= 'z' {
        Some(c as u8)
    } else if 'A' <= c && c <= 'Z' {
        Some(((c as u8) + 32) as u8)
    } else {
        None
    }
}

/// Strips a string of all characters except ASCII letters, lowercasing them.
pub fn key(s: &str) -> (r: Key)
    ensures
        r@ == key_of(s@),
{
    let n = s.unicode_len();
    let mut out: Vec<u8> = Vec::new();
    let mut i: usize = 0;
    while i < n
        invariant
            n == s@.len(),
            i <= n,
            out@ == key_of(s@.take(i as int)),
        decreases n - i,
    {
        let c = s.get_char(i);
        assert(s@.take(i + 1).drop_last() == s@.take(i as int));
        match key_char(c) {
            Some(b) => out.push(b),
            None => {},
        }
        i = i + 1;
    }
    assert(s@.take(n as int) == s@);
    out
}

/// While scanning, the output is in canonical shape save perhaps for one
/// trailing space, and the boundary flag is set exactly when the output is
/// empty or ends in a space.
proof fn lemma_scan_shape(s: Seq<char>)
    ensures
        canonical_shape(scan(s).0),
        scan(s).1 <==> (scan(s).0.len() == 0 || scan(s).0.last() == ' '),
    decreases s.len(),
{
    if s.len() > 0 {
        lemma_scan_shape(s.drop_last());
        let (out, brk) = scan(s.drop_last());
        let c = s.last();
        let o2 = scan(s).0;
        if c == '&' {
            let spaced = if brk {
                out
            } else {
                out.push(' ')
            };
            assert(canonical_shape(spaced));
            assert(o2 == spaced + seq!['A', 'N', 'D', ' ']);
            assert forall|i: int| 0 <= i < o2.len() implies (is_upper(#[trigger] o2[i]) || is_digit(
                o2[i],
            ) || (o2[i] == ' ' && i > 0 && o2[i - 1] != ' ')) by {
                if i < spaced.len() {
                    assert(o2[i] == spaced[i]);
                    if i > 0 {
                        assert(o2[i - 1] == spaced[i - 1]);
                    }
                }
            }
        }
    }
}

/// The canonical form is ASCII and in canonical shape, with no trailing space.
pub proof fn lemma_canon_shape(s: Seq<char>)
    ensures
        canonical_shape(canon(s)),
        is_ascii_chars(canon(s)),
        canon(s).len() > 0 ==> canon(s).last() != ' ',
{
    lemma_scan_shape(s);
    let out = scan(s).0;
    let c = canon(s);
    assert forall|i: int| 0 <= i < c.len() implies (is_upper(#[trigger] c[i]) || is_digit(c[i]) || (
    c[i] == ' ' && i > 0 && c[i - 1] != ' ')) by {
        assert(c[i] == out[i]);
        if i > 0 {
            assert(c[i - 1] == out[i - 1]);
        }
    }
    if c.len() > 0 && out.len() > 0 && out.last() == ' ' {
        assert(c.last() == out[out.len() - 2]);
    }
}

/// Scanning text in canonical shape gives it back unchanged.
proof fn lemma_scan_canonical(o: Seq<char>)
    requires
        canonical_shape(o),
    ensures
        scan(o) == (o, o.len() == 0 || o.last() == ' '),
    decreases o.len(),
{
    if o.len() > 0 {
        let p = o.drop_last();
        assert forall|i: int| 0 <= i < p.len() implies (is_upper(#[trigger] p[i]) || is_digit(p[i])
            || (p[i] == ' ' && i > 0 && p[i - 1] != ' ')) by {
            assert(p[i] == o[i]);
            if i > 0 {
                assert(p[i - 1] == o[i - 1]);
            }
        }
        lemma_scan_canonical(p);
        let c = o.last();
        assert(is_upper(o[o.len() - 1]) || is_digit(o[o.len() - 1]) || (o[o.len() - 1] == ' '
            && o.len() - 1 > 0 && o[o.len() - 2] != ' '));
        assert(p.push(c) == o);
    }
}

/// Normalizing is idempotent. The output of `normalize` is ASCII, on which
/// `normalize` is the canonical form alone; and taking the canonical form of
/// a canonical form gives it back unchanged.
pub proof fn lemma_normalize_idempotent(s: Seq<char>)
    ensures
        is_ascii_chars(canon(s)),
        canon(canon(s)) == canon(s),
{
    lemma_canon_shape(s);
    lemma_scan_canonical(canon(s));
}

proof fn lemma_key_upper(c: char)
    requires
        is_alnum(c),
    ensures
        key_char_spec(upper(c)) == key_char_spec(c),
{
    if is_lower(c) {
        let u = ((c as u8) - 32) as u8;
        assert(u as char as u8 == u);
    }
}

/// The scan keeps the letters of its input, in order and up to case, and
/// adds letters only for `&`.
proof fn lemma_key_scan(s: Seq<char>)
    requires
        !s.contains('&'),
    ensures
        key_of(scan(s).0) == key_of(s),
    decreases s.len(),
{
    if s.len() > 0 {
        let p = s.drop_last();
        assert(!p.contains('&')) by {
            if p.contains('&') {
                let i = choose|i: int| 0 <= i < p.len() && p[i] == '&';
                assert(s[i] == '&');
            }
        }
        lemma_key_scan(p);
        let (out, brk) = scan(p);
        let c = s.last();
        assert(c != '&') by {
            assert(s[s.len() - 1] == c);
        }
        if is_alnum(c) {
            lemma_key_upper(c);
            assert(out.push(upper(c)).drop_last() == out);
        } else if is_separator(c) && !brk {
            assert(out.push(' ').drop_last() == out);
        }
    }
}

/// The comparison key of a name without `&` is that of its canonical form.
/// So for an ASCII name without `&`, whose normalized form is its canonical
/// form, `key` gives the same result before and after `normalize`.
pub proof fn lemma_key_canon(s: Seq<char>)
    requires
        !s.contains('&'),
    ensures
        key_of(canon(s)) == key_of(s),
{
    lemma_key_scan(s);
}

} // verus!
