//! Text helpers shared by the other modules, over the characters of a string.

use vstd::prelude::*;
use vstd::string::StringExecFns;
use vstd::utf8::encode_utf8;

verus! {

/// Whether the Unicode tables of the standard library call `c` alphanumeric.
pub uninterp spec fn char_alphanumeric(c: char) -> bool;

/// Whether the Unicode tables of the standard library call `c` uppercase.
pub uninterp spec fn char_uppercase(c: char) -> bool;

/// Whether the Unicode tables of the standard library call `c` lowercase.
pub uninterp spec fn char_lowercase(c: char) -> bool;

/// The lowercase form of a whole text, by the Unicode tables of the standard library.
pub uninterp spec fn str_lowercase(s: Seq<char>) -> Seq<char>;

/// `char::is_alphanumeric`: the answer depends on the character alone.
pub assume_specification[ char::is_alphanumeric ](c: char) -> (r: bool)
    ensures
        r == char_alphanumeric(c),
;

/// `char::is_uppercase`: the answer depends on the character alone.
pub assume_specification[ char::is_uppercase ](c: char) -> (r: bool)
    ensures
        r == char_uppercase(c),
;

/// `char::is_lowercase`: the answer depends on the character alone.
pub assume_specification[ char::is_lowercase ](c: char) -> (r: bool)
    ensures
        r == char_lowercase(c),
;

/// Whether `c` has the Unicode property `White_Space`.
pub open spec fn char_white_space(c: char) -> bool {
    let n = c as u32;
    ||| 0x9 <= n <= 0xd
    ||| n == 0x20
    ||| n == 0x85
    ||| n == 0xa0
    ||| n == 0x1680
    ||| 0x2000 <= n <= 0x200a
    ||| 0x2028 <= n <= 0x2029
    ||| n == 0x202f
    ||| n == 0x205f
    ||| n == 0x3000
}

/// `char::is_whitespace`: whether the character has the Unicode property `White_Space`.
pub assume_specification[ char::is_whitespace ](c: char) -> (r: bool)
    ensures
        r == char_white_space(c),
;

/// `str::to_lowercase`: the answer depends on the text alone.
pub assume_specification[ str::to_lowercase ](s: &str) -> (r: String)
    ensures
        r@ == str_lowercase(s@),
;

/// `String::push`: appends one character.
pub assume_specification[ String::push ](s: &mut String, c: char)
    ensures
        final(s)@ == old(s)@.push(c),
;

/// The number of bytes that a text takes in UTF-8.
pub open spec fn byte_len(s: Seq<char>) -> nat {
    encode_utf8(s).len()
}

/// The characters of a text, in order.
pub fn chars_of(s: &str) -> (v: Vec<char>)
    ensures
        v@ == s@,
{
    let mut v: Vec<char> = Vec::new();
    for c in it: s.chars()
        invariant
            v@ == it.seq().take(it.index()),
            it.seq() == s@,
    {
        v.push(c);
        proof {
            assert(it.seq().take(it.index() + 1) =~= it.seq().take(it.index()).push(c));
        }
    }
    assert(s@.take(s@.len() as int) =~= s@);
    v
}

/// The text made of the characters `from..to` of `v`.
pub fn string_of(v: &Vec<char>, from: usize, to: usize) -> (s: String)
    requires
        from <= to <= v@.len(),
    ensures
        s@ == v@.subrange(from as int, to as int),
{
    let mut s = String::new();
    let mut i: usize = from;
    while i < to
        invariant
            from <= i <= to <= v@.len(),
            s@ == v@.subrange(from as int, i as int),
        decreases to - i,
    {
        s.push(v[i]);
        i += 1;
        assert(v@.subrange(from as int, i as int) =~= v@.subrange(from as int, i - 1).push(
            v@[i - 1],
        ));
    }
    s
}

/// The number of bytes of a text.
pub fn utf8_len(s: &str) -> (n: usize)
    ensures
        n == byte_len(s@),
{
    s.as_bytes().len()
}

/// Whether two texts are the same.
pub fn same_text(a: &str, b: &str) -> (r: bool)
    ensures
        r == (a@ == b@),
{
    let x = chars_of(a);
    let y = chars_of(b);
    if x.len() != y.len() {
        return false;
    }
    let mut i: usize = 0;
    while i < x.len()
        invariant
            x@ == a@,
            y@ == b@,
            x@.len() == y@.len(),
            i <= x@.len(),
            forall|j: int| 0 <= j < i ==> x@[j] == y@[j],
        decreases x@.len() - i,
    {
        if x[i] != y[i] {
            assert(a@[i as int] != b@[i as int]);
            return false;
        }
        i += 1;
    }
    assert(a@ =~= b@);
    true
}

/// Whether `s` begins with `prefix`.
pub fn starts_with(s: &str, prefix: &str) -> (r: bool)
    ensures
        r == prefix@.is_prefix_of(s@),
{
    let x = chars_of(s);
    let p = chars_of(prefix);
    if p.len() > x.len() {
        return false;
    }
    let mut i: usize = 0;
    while i < p.len()
        invariant
            x@ == s@,
            p@ == prefix@,
            p@.len() <= x@.len(),
            i <= p@.len(),
            forall|j: int| 0 <= j < i ==> x@[j] == p@[j],
        decreases p@.len() - i,
    {
        if x[i] != p[i] {
            assert(s@.subrange(0, prefix@.len() as int)[i as int] != prefix@[i as int]);
            return false;
        }
        i += 1;
    }
    assert(prefix@ =~= s@.subrange(0, prefix@.len() as int));
    true
}

/// The classes of characters that text is split and trimmed by.
#[derive(Clone, Copy)]
pub enum CharClass {
    /// Everything but white space.
    Visible,
    /// Alphanumeric characters and `_`.
    Identifier,
    /// Everything but the punctuation that surrounds a word.
    Inner,
}

impl CharClass {
    /// Whether `c` belongs to the class.
    pub open spec fn holds(self, c: char) -> bool {
        match self {
            CharClass::Visible => !char_white_space(c),
            CharClass::Identifier => char_alphanumeric(c) || c == '_',
            CharClass::Inner => !(c == ',' || c == '.' || c == ';' || c == ':' || c == ')' || c
                == '(' || c == '"' || c == '\''),
        }
    }

    /// Whether `c` belongs to the class.
    pub fn test(self, c: char) -> (r: bool)
        ensures
            r == self.holds(c),
    {
        match self {
            CharClass::Visible => !c.is_whitespace(),
            CharClass::Identifier => c.is_alphanumeric() || c == '_',
            CharClass::Inner => !(c == ',' || c == '.' || c == ';' || c == ':' || c == ')' || c
                == '(' || c == '"' || c == '\''),
        }
    }
}

/// `s` without the characters at its front that are not of `class`.
pub open spec fn trim_front(s: Seq<char>, class: CharClass) -> Seq<char>
    decreases s.len(),
{
    if s.len() > 0 && !class.holds(s[0]) {
        trim_front(s.drop_first(), class)
    } else {
        s
    }
}

/// `s` without the characters at its end that are not of `class`.
pub open spec fn trim_back(s: Seq<char>, class: CharClass) -> Seq<char>
    decreases s.len(),
{
    if s.len() > 0 && !class.holds(s.last()) {
        trim_back(s.drop_last(), class)
    } else {
        s
    }
}

/// `s` without the characters at either end that are not of `class`.
pub open spec fn trimmed_to(s: Seq<char>, class: CharClass) -> Seq<char> {
    trim_back(trim_front(s, class), class)
}

/// `s` without white space at either end.
pub open spec fn trimmed(s: Seq<char>) -> Seq<char> {
    trimmed_to(s, CharClass::Visible)
}

/// A text without the characters at either end that are not of `class`.
pub fn trim_to(s: &str, class: CharClass) -> (r: String)
    ensures
        r@ == trimmed_to(s@, class),
{
    let v = chars_of(s);
    let mut from: usize = 0;
    assert(v@.skip(0) =~= v@);
    while from < v.len() && !class.test(v[from])
        invariant
            from <= v@.len(),
            trim_front(v@.skip(from as int), class) == trim_front(v@, class),
        decreases v@.len() - from,
    {
        assert(v@.skip(from as int).drop_first() =~= v@.skip(from + 1));
        from += 1;
    }
    let mut to: usize = v.len();
    assert(v@.subrange(from as int, to as int) =~= v@.skip(from as int));
    while to > from && !class.test(v[to - 1])
        invariant
            from <= to <= v@.len(),
            trim_back(v@.subrange(from as int, to as int), class) == trimmed_to(v@, class),
        decreases to,
    {
        assert(v@.subrange(from as int, to as int).drop_last() =~= v@.subrange(
            from as int,
            to - 1,
        ));
        to -= 1;
    }
    string_of(&v, from, to)
}

/// A text without white space at either end.
pub fn trim(s: &str) -> (r: String)
    ensures
        r@ == trimmed(s@),
{
    trim_to(s, CharClass::Visible)
}

/// How many characters at the front of `s` belong to `class`.
pub open spec fn run_len(s: Seq<char>, class: CharClass) -> nat
    decreases s.len(),
{
    if s.len() > 0 && class.holds(s[0]) {
        1 + run_len(s.drop_first(), class)
    } else {
        0
    }
}

/// A run is no longer than the text.
pub proof fn lemma_run_len_bound(s: Seq<char>, class: CharClass)
    ensures
        run_len(s, class) <= s.len(),
    decreases s.len(),
{
    if s.len() > 0 && class.holds(s[0]) {
        lemma_run_len_bound(s.drop_first(), class);
    }
}

/// The longest runs of characters of `class` in `s`, in order.
pub open spec fn runs(s: Seq<char>, class: CharClass) -> Seq<Seq<char>>
    decreases s.len(),
{
    if s.len() == 0 {
        Seq::empty()
    } else if !class.holds(s[0]) {
        runs(s.drop_first(), class)
    } else {
        let n = run_len(s, class) as int;
        proof {
            lemma_run_len_bound(s, class);
        }
        seq![s.take(n)] + runs(s.skip(n), class)
    }
}

/// The longest runs of characters of `class` in a text, in order.
pub fn split_runs(s: &str, class: CharClass) -> (r: Vec<String>)
    ensures
        r@.map_values(|w: String| w@) == runs(s@, class),
{
    let v = chars_of(s);
    let mut out: Vec<String> = Vec::new();
    let mut i: usize = 0;
    assert(v@.skip(0) =~= v@);
    assert(out@.map_values(|w: String| w@) =~= Seq::<Seq<char>>::empty());
    assert(Seq::<Seq<char>>::empty() + runs(v@, class) =~= runs(v@, class));
    while i < v.len()
        invariant
            i <= v@.len(),
            out@.map_values(|w: String| w@) + runs(v@.skip(i as int), class) == runs(v@, class),
        decreases v@.len() - i,
    {
        if !class.test(v[i]) {
            assert(v@.skip(i as int).drop_first() =~= v@.skip(i + 1));
            i += 1;
        } else {
            let start: usize = i;
            let ghost rest = v@.skip(start as int);
            assert(rest.skip(0) =~= rest);
            while i < v.len() && class.test(v[i])
                invariant
                    start <= i <= v@.len(),
                    rest == v@.skip(start as int),
                    run_len(rest, class) == (i - start) + run_len(v@.skip(i as int), class),
                decreases v@.len() - i,
            {
                assert(v@.skip(i as int).drop_first() =~= v@.skip(i + 1));
                i += 1;
            }
            let word = string_of(&v, start, i);
            proof {
                assert(run_len(v@.skip(i as int), class) == 0);
                assert(rest.take(i - start) =~= v@.subrange(start as int, i as int));
                assert(rest.skip(i - start) =~= v@.skip(i as int));
                if i == start {
                    assert(rest[0] == v@[start as int]);
                }
            }
            let ghost before = out@.map_values(|w: String| w@);
            out.push(word);
            assert(out@.map_values(|w: String| w@) =~= before.push(word@));
            assert(before + (seq![word@] + runs(v@.skip(i as int), class)) =~= before.push(word@)
                + runs(v@.skip(i as int), class));
        }
    }
    assert(out@.map_values(|w: String| w@) + Seq::<Seq<char>>::empty() =~= out@.map_values(
        |w: String| w@,
    ));
    out
}

/// `c` with the ASCII capitals made small.
pub open spec fn ascii_lower(c: char) -> char {
    if 'A' <= c <= 'Z' {
        ((c as u8) + 32) as u8 as char
    } else {
        c
    }
}

/// A text with its ASCII capitals made small.
pub open spec fn ascii_lowercase(s: Seq<char>) -> Seq<char> {
    s.map_values(|c: char| ascii_lower(c))
}

/// A text with its ASCII capitals made small.
pub fn to_ascii_lower(s: &str) -> (r: String)
    ensures
        r@ == ascii_lowercase(s@),
{
    let v = chars_of(s);
    let mut out = String::new();
    let mut i: usize = 0;
    while i < v.len()
        invariant
            v@ == s@,
            i <= v@.len(),
            out@ == ascii_lowercase(v@.take(i as int)),
        decreases v@.len() - i,
    {
        let c = v[i];
        let d = if 'A' <= c && c <= 'Z' {
            ((c as u8) + 32) as char
        } else {
            c
        };
        out.push(d);
        i += 1;
        assert(ascii_lowercase(v@.take(i as int)) =~= ascii_lowercase(v@.take(i - 1)).push(
            ascii_lower(v@[i - 1]),
        ));
    }
    assert(v@.take(i as int) =~= s@);
    out
}

/// The decimal digit with the value `d`.
pub open spec fn digit(d: nat) -> char {
    if d == 0 { '0' }
    else if d == 1 { '1' }
    else if d == 2 { '2' }
    else if d == 3 { '3' }
    else if d == 4 { '4' }
    else if d == 5 { '5' }
    else if d == 6 { '6' }
    else if d == 7 { '7' }
    else if d == 8 { '8' }
    else { '9' }
}

/// `n` written in decimal.
pub open spec fn decimal(n: nat) -> Seq<char>
    decreases n,
{
    if n < 10 {
        seq![digit(n)]
    } else {
        decimal(n / 10).push(digit(n % 10))
    }
}

/// A number written in decimal.
pub fn decimal_text(n: u64) -> (r: String)
    ensures
        r@ == decimal(n as nat),
    decreases n,
{
    let d = (n % 10) as u8;
    let c = match d {
        0 => '0',
        1 => '1',
        2 => '2',
        3 => '3',
        4 => '4',
        5 => '5',
        6 => '6',
        7 => '7',
        8 => '8',
        _ => '9',
    };
    let mut s = if n < 10 {
        String::new()
    } else {
        decimal_text(n / 10)
    };
    s.push(c);
    assert(n < 10 ==> s@ =~= seq![digit(n as nat)]);
    s
}

/// Lexicographic order on byte sequences, strict.
pub open spec fn bytes_less(a: Seq<u8>, b: Seq<u8>) -> bool
    decreases a.len(),
{
    if b.len() == 0 {
        false
    } else if a.len() == 0 {
        true
    } else if a[0] != b[0] {
        a[0] < b[0]
    } else {
        bytes_less(a.drop_first(), b.drop_first())
    }
}

/// The order of texts: by the bytes of their UTF-8 form.
pub open spec fn text_less(a: Seq<char>, b: Seq<char>) -> bool {
    bytes_less(encode_utf8(a), encode_utf8(b))
}

/// Whether `a` comes before `b` in the order of texts.
pub fn text_before(a: &str, b: &str) -> (r: bool)
    ensures
        r == text_less(a@, b@),
{
    let x = a.as_bytes();
    let y = b.as_bytes();
    let mut i: usize = 0;
    assert(x@.skip(0) =~= x@);
    assert(y@.skip(0) =~= y@);
    while i < x.len() && i < y.len()
        invariant
            i <= x@.len(),
            i <= y@.len(),
            x@ == encode_utf8(a@),
            y@ == encode_utf8(b@),
            bytes_less(x@, y@) == bytes_less(x@.skip(i as int), y@.skip(i as int)),
        decreases x@.len() - i,
    {
        if x[i] != y[i] {
            return x[i] < y[i];
        }
        assert(x@.skip(i as int).drop_first() =~= x@.skip(i + 1));
        assert(y@.skip(i as int).drop_first() =~= y@.skip(i + 1));
        i += 1;
    }
    i < y.len()
}

/// No byte sequence comes before itself.
pub proof fn lemma_bytes_less_irreflexive(a: Seq<u8>)
    ensures
        !bytes_less(a, a),
    decreases a.len(),
{
    if a.len() > 0 {
        lemma_bytes_less_irreflexive(a.drop_first());
    }
}

/// Two byte sequences that differ are ordered one way or the other.
pub proof fn lemma_bytes_less_total(a: Seq<u8>, b: Seq<u8>)
    ensures
        a == b || bytes_less(a, b) || bytes_less(b, a),
    decreases a.len(),
{
    if a.len() == 0 || b.len() == 0 {
        if a.len() == 0 && b.len() == 0 {
            assert(a =~= b);
        }
    } else if a[0] == b[0] {
        lemma_bytes_less_total(a.drop_first(), b.drop_first());
        if a.drop_first() == b.drop_first() {
            assert(a =~= seq![a[0]] + a.drop_first());
            assert(b =~= seq![b[0]] + b.drop_first());
        }
    }
}

/// The byte order is transitive.
pub proof fn lemma_bytes_less_transitive(a: Seq<u8>, b: Seq<u8>, c: Seq<u8>)
    requires
        bytes_less(a, b),
        bytes_less(b, c),
    ensures
        bytes_less(a, c),
    decreases a.len(),
{
    if a.len() > 0 && b.len() > 0 && c.len() > 0 && a[0] == b[0] && b[0] == c[0] {
        lemma_bytes_less_transitive(a.drop_first(), b.drop_first(), c.drop_first());
    }
}

/// The order of texts is strict and total, and two texts that are not ordered are equal.
pub proof fn lemma_text_order(a: Seq<char>, b: Seq<char>, c: Seq<char>)
    ensures
        !text_less(a, a),
        a == b || text_less(a, b) || text_less(b, a),
        !(text_less(a, b) && text_less(b, a)),
        text_less(a, b) && text_less(b, c) ==> text_less(a, c),
{
    let (x, y, z) = (encode_utf8(a), encode_utf8(b), encode_utf8(c));
    lemma_bytes_less_irreflexive(x);
    lemma_bytes_less_total(x, y);
    if x == y {
        vstd::utf8::encode_utf8_decode_utf8(a);
        vstd::utf8::encode_utf8_decode_utf8(b);
    }
    if bytes_less(x, y) && bytes_less(y, x) {
        lemma_bytes_less_transitive(x, y, x);
    }
    if bytes_less(x, y) && bytes_less(y, z) {
        lemma_bytes_less_transitive(x, y, z);
    }
}

/// Whether `part` occurs in `s` at position `at`.
pub open spec fn occurs_at(s: Seq<char>, part: Seq<char>, at: int) -> bool {
    0 <= at && at + part.len() <= s.len() && s.subrange(at, at + part.len()) == part
}

/// Whether `part` occurs in `s`.
pub open spec fn contains_text(s: Seq<char>, part: Seq<char>) -> bool {
    exists|at: int| occurs_at(s, part, at)
}

/// Whether `part` occurs in `s`.
pub fn contains(s: &str, part: &str) -> (r: bool)
    ensures
        r == contains_text(s@, part@),
{
    let x = chars_of(s);
    let p = chars_of(part);
    if p.len() > x.len() {
        assert forall|at: int| !occurs_at(s@, part@, at) by {}
        return false;
    }
    if p.len() == 0 {
        assert(s@.subrange(0, 0) =~= part@);
        assert(occurs_at(s@, part@, 0));
        return true;
    }
    let count: usize = x.len() - p.len() + 1;
    let mut at: usize = 0;
    while at < count
        invariant
            x@ == s@,
            p@ == part@,
            0 < p@.len() <= x@.len(),
            x@.len() <= usize::MAX,
            count == x@.len() - p@.len() + 1,
            at <= count,
            forall|k: int| 0 <= k < at ==> !occurs_at(s@, part@, k),
        decreases count - at,
    {
        let mut i: usize = 0;
        while i < p.len() && x[at + i] == p[i]
            invariant
                at < count,
                count == x@.len() - p@.len() + 1,
                x@.len() <= usize::MAX,
                i <= p@.len(),
                forall|j: int| 0 <= j < i ==> x@[at + j] == p@[j],
            decreases p@.len() - i,
        {
            i += 1;
        }
        if i == p.len() {
            assert(x@.subrange(at as int, at + p@.len()) =~= p@);
            assert(occurs_at(s@, part@, at as int));
            return true;
        }
        proof {
            if occurs_at(s@, part@, at as int) {
                assert(x@.subrange(at as int, at + p@.len())[i as int] == p@[i as int]);
            }
        }
        at += 1;
    }
    assert forall|k: int| !occurs_at(s@, part@, k) by {}
    false
}

/// The position of the first `c`, or the length of the text.
pub open spec fn char_index(s: Seq<char>, c: char) -> nat
    decreases s.len(),
{
    if s.len() == 0 || s[0] == c {
        0
    } else {
        1 + char_index(s.drop_first(), c)
    }
}

/// The first position is within the text.
pub proof fn lemma_char_index(s: Seq<char>, c: char)
    ensures
        char_index(s, c) <= s.len(),
    decreases s.len(),
{
    if s.len() > 0 && s[0] != c {
        lemma_char_index(s.drop_first(), c);
    }
}

/// The position of the first `c` in `v` from `from` on, or the length.
pub fn find_char(v: &Vec<char>, from: usize, c: char) -> (r: usize)
    requires
        from <= v@.len(),
    ensures
        from <= r <= v@.len(),
        r == from + char_index(v@.skip(from as int), c),
{
    let mut i: usize = from;
    while i < v.len() && v[i] != c
        invariant
            from <= i <= v@.len(),
            char_index(v@.skip(from as int), c) == (i - from) + char_index(v@.skip(i as int), c),
        decreases v@.len() - i,
    {
        assert(v@.skip(i as int).drop_first() =~= v@.skip(i + 1));
        i += 1;
    }
    i
}

/// Whether `s` ends with `suffix`.
pub fn ends_with(s: &str, suffix: &str) -> (r: bool)
    ensures
        r == suffix@.is_suffix_of(s@),
{
    let x = chars_of(s);
    let p = chars_of(suffix);
    if p.len() > x.len() {
        return false;
    }
    let from: usize = x.len() - p.len();
    let mut i: usize = 0;
    while i < p.len()
        invariant
            x@ == s@,
            p@ == suffix@,
            p@.len() <= x@.len() <= usize::MAX,
            from == x@.len() - p@.len(),
            i <= p@.len(),
            forall|j: int| 0 <= j < i ==> x@[from + j] == p@[j],
        decreases p@.len() - i,
    {
        if x[from + i] != p[i] {
            assert(s@.subrange(s@.len() - suffix@.len(), s@.len() as int)[i as int]
                != suffix@[i as int]);
            return false;
        }
        i += 1;
    }
    assert(suffix@ =~= s@.subrange(s@.len() - suffix@.len(), s@.len() as int));
    true
}

/// Whether `s` holds the character `c`.
pub fn contains_char(s: &str, c: char) -> (r: bool)
    ensures
        r == s@.contains(c),
{
    let v = chars_of(s);
    let mut i: usize = 0;
    while i < v.len()
        invariant
            v@ == s@,
            i <= v@.len(),
            forall|j: int| 0 <= j < i ==> v@[j] != c,
        decreases v@.len() - i,
    {
        if v[i] == c {
            assert(s@[i as int] == c);
            return true;
        }
        i += 1;
    }
    false
}

/// The results that `f` has for the items of `s`, in order, without the items
/// that it has none for.
pub open spec fn collected<A, B>(s: Seq<A>, f: spec_fn(A) -> Option<B>) -> Seq<B>
    decreases s.len(),
{
    if s.len() == 0 {
        Seq::empty()
    } else {
        let before = collected(s.drop_last(), f);
        match f(s.last()) {
            Some(b) => before.push(b),
            None => before,
        }
    }
}

/// A count written in decimal.
pub fn count_text(n: usize) -> (r: String)
    ensures
        r@ == decimal(n as nat),
{
    decimal_text(n as u64)
}

/// Two texts, one behind the other.
pub fn join2(a: &str, b: &str) -> (r: String)
    ensures
        r@ == a@ + b@,
{
    let mut s = a.to_owned();
    s.append(b);
    s
}

/// Three texts, one behind the other.
pub fn join3(a: &str, b: &str, c: &str) -> (r: String)
    ensures
        r@ == a@ + b@ + c@,
{
    let mut s = a.to_owned();
    s.append(b);
    s.append(c);
    s
}

/// Four texts, one behind the other.
pub fn join4(a: &str, b: &str, c: &str, d: &str) -> (r: String)
    ensures
        r@ == a@ + b@ + c@ + d@,
{
    let mut s = a.to_owned();
    s.append(b);
    s.append(c);
    s.append(d);
    s
}

/// Five texts, one behind the other.
pub fn join5(a: &str, b: &str, c: &str, d: &str, e: &str) -> (r: String)
    ensures
        r@ == a@ + b@ + c@ + d@ + e@,
{
    let mut s = a.to_owned();
    s.append(b);
    s.append(c);
    s.append(d);
    s.append(e);
    s
}

/// Six texts, one behind the other.
pub fn join6(a: &str, b: &str, c: &str, d: &str, e: &str, f: &str) -> (r: String)
    ensures
        r@ == a@ + b@ + c@ + d@ + e@ + f@,
{
    let mut s = a.to_owned();
    s.append(b);
    s.append(c);
    s.append(d);
    s.append(e);
    s.append(f);
    s
}

/// Seven texts, one behind the other.
pub fn join7(a: &str, b: &str, c: &str, d: &str, e: &str, f: &str, g: &str) -> (r: String)
    ensures
        r@ == a@ + b@ + c@ + d@ + e@ + f@ + g@,
{
    let mut s = a.to_owned();
    s.append(b);
    s.append(c);
    s.append(d);
    s.append(e);
    s.append(f);
    s.append(g);
    s
}

/// Eight texts, one behind the other.
pub fn join8(a: &str, b: &str, c: &str, d: &str, e: &str, f: &str, g: &str, h: &str) -> (r: String)
    ensures
        r@ == a@ + b@ + c@ + d@ + e@ + f@ + g@ + h@,
{
    let mut s = a.to_owned();
    s.append(b);
    s.append(c);
    s.append(d);
    s.append(e);
    s.append(f);
    s.append(g);
    s.append(h);
    s
}

/// Nine texts, one behind the other.
pub fn join9(a: &str, b: &str, c: &str, d: &str, e: &str, f: &str, g: &str, h: &str, i: &str) -> (r: String)
    ensures
        r@ == a@ + b@ + c@ + d@ + e@ + f@ + g@ + h@ + i@,
{
    let mut s = a.to_owned();
    s.append(b);
    s.append(c);
    s.append(d);
    s.append(e);
    s.append(f);
    s.append(g);
    s.append(h);
    s.append(i);
    s
}

/// Whether a text holds nothing.
pub fn is_blank(s: &str) -> (r: bool)
    ensures
        r == (s@.len() == 0),
{
    chars_of(s).len() == 0
}

/// What a list with one more item at its end holds.
pub proof fn lemma_push_contains<A>(s: Seq<A>, x: A, y: A)
    ensures
        s.push(x).contains(y) <==> s.contains(y) || x == y,
{
    let p = s.push(x);
    if s.contains(y) {
        let i = choose|i: int| 0 <= i < s.len() && s[i] == y;
        assert(p[i] == y);
    }
    if x == y {
        assert(p[s.len() as int] == y);
    }
    if p.contains(y) && x != y {
        let i = choose|i: int| 0 <= i < p.len() && p[i] == y;
        assert(s[i] == y);
    }
}

/// A run begins a text as far as its characters belong to the class.
proof fn lemma_run_len(s: Seq<char>, class: CharClass)
    ensures
        run_len(s, class) <= s.len(),
        forall|i: int| 0 <= i < run_len(s, class) ==> class.holds(#[trigger] s[i]),
        run_len(s, class) < s.len() ==> !class.holds(s[run_len(s, class) as int]),
    decreases s.len(),
{
    if s.len() > 0 && class.holds(s[0]) {
        let d = s.drop_first();
        lemma_run_len(d, class);
        assert forall|i: int| 0 <= i < run_len(s, class) implies class.holds(#[trigger] s[i]) by {
            if i > 0 {
                assert(d[i - 1] == s[i]);
            }
        }
        let n = run_len(d, class) as int;
        if n < d.len() {
            assert(d[n] == s[n + 1]);
        }
    }
}

/// Every stretch of a text whose characters belong to a class, and that can be made
/// longer at neither end, is one of its runs.
pub proof fn stretches_are_runs(s: Seq<char>, class: CharClass, a: int, b: int)
    requires
        0 <= a < b <= s.len(),
        forall|i: int| a <= i < b ==> class.holds(#[trigger] s[i]),
        a > 0 ==> !class.holds(s[a - 1]),
        b < s.len() ==> !class.holds(s[b]),
    ensures
        runs(s, class).contains(s.subrange(a, b)),
    decreases s.len(),
{
    if !class.holds(s[0]) {
        let d = s.drop_first();
        assert forall|i: int| a - 1 <= i < b - 1 implies class.holds(#[trigger] d[i]) by {
            assert(d[i] == s[i + 1]);
        }
        assert(a > 0);
        assert(a - 1 > 0 ==> d[a - 2] == s[a - 1]);
        assert(b - 1 < d.len() ==> d[b - 1] == s[b]);
        stretches_are_runs(d, class, a - 1, b - 1);
        assert(d.subrange(a - 1, b - 1) =~= s.subrange(a, b));
    } else {
        lemma_run_len(s, class);
        let n = run_len(s, class) as int;
        let rest = s.skip(n);
        let all = runs(s, class);
        assert(all == seq![s.take(n)] + runs(rest, class));
        if a == 0 {
            assert(b == n) by {
                if b < n {
                    assert(class.holds(s[b]));
                }
                if n < b {
                    assert(class.holds(s[n]));
                }
            }
            assert(s.subrange(a, b) =~= s.take(n));
            assert(all[0] == s.take(n));
        } else {
            assert(a > n) by {
                if a - 1 < n {
                    assert(class.holds(s[a - 1]));
                }
            }
            assert forall|i: int| a - n <= i < b - n implies class.holds(#[trigger] rest[i]) by {
                assert(rest[i] == s[i + n]);
            }
            assert(rest[a - n - 1] == s[a - 1]);
            assert(b - n < rest.len() ==> rest[b - n] == s[b]);
            stretches_are_runs(rest, class, a - n, b - n);
            assert(rest.subrange(a - n, b - n) =~= s.subrange(a, b));
            let k = choose|k: int|
                0 <= k < runs(rest, class).len() && runs(rest, class)[k] == s.subrange(a, b);
            assert(all[k + 1] == s.subrange(a, b));
        }
    }
}

/// Every run of a text is a stretch of it whose characters belong to the class, and that
/// can be made longer at neither end.
pub proof fn runs_are_stretches(s: Seq<char>, class: CharClass, k: int) -> (r: (int, int))
    requires
        0 <= k < runs(s, class).len(),
    ensures
        0 <= r.0 < r.1 <= s.len(),
        runs(s, class)[k] == s.subrange(r.0, r.1),
        forall|i: int| r.0 <= i < r.1 ==> class.holds(#[trigger] s[i]),
        r.0 > 0 ==> !class.holds(s[r.0 - 1]),
        r.1 < s.len() ==> !class.holds(s[r.1]),
    decreases s.len(),
{
    if !class.holds(s[0]) {
        let d = s.drop_first();
        let (a, b) = runs_are_stretches(d, class, k);
        assert(d.subrange(a, b) =~= s.subrange(a + 1, b + 1));
        assert forall|i: int| a + 1 <= i < b + 1 implies class.holds(#[trigger] s[i]) by {
            assert(d[i - 1] == s[i]);
        }
        assert(a > 0 ==> d[a - 1] == s[a]);
        assert(b < d.len() ==> d[b] == s[b + 1]);
        (a + 1, b + 1)
    } else {
        lemma_run_len(s, class);
        let n = run_len(s, class) as int;
        let rest = s.skip(n);
        assert(runs(s, class) == seq![s.take(n)] + runs(rest, class));
        if k == 0 {
            assert(s.take(n) =~= s.subrange(0, n));
            (0, n)
        } else {
            assert(runs(s, class)[k] == runs(rest, class)[k - 1]);
            let (a, b) = runs_are_stretches(rest, class, k - 1);
            assert(rest.subrange(a, b) =~= s.subrange(a + n, b + n));
            assert forall|i: int| a + n <= i < b + n implies class.holds(#[trigger] s[i]) by {
                assert(rest[i - n] == s[i]);
            }
            assert(b < rest.len() ==> rest[b] == s[b + n]);
            assert(a == 0 ==> class.holds(rest[0]) && rest[0] == s[n]);
            assert(a > 0 ==> rest[a - 1] == s[a + n - 1]);
            (a + n, b + n)
        }
    }
}

/// The characters of words are all but spaces, tabs and line ends; those of identifiers
/// are letters, digits and underscores; the punctuation around words is that of sentences.
pub proof fn words_end_at_spaces(c: char)
    ensures
        c == ' ' || c == '\n' || c == '\t' || c == '\r' ==> !CharClass::Visible.holds(c),
        0x21 <= c as u32 <= 0x7e ==> CharClass::Visible.holds(c),
        CharClass::Identifier.holds(c) <==> char_alphanumeric(c) || c == '_',
        CharClass::Inner.holds(c) <==> c != ',' && c != '.' && c != ';' && c != ':' && c != '('
            && c != ')' && c != '"' && c != '\'',
{
}

/// What is left of a text begins and ends with a character of the class, and what is
/// taken away at the two ends has none.
pub proof fn trimming_takes_the_ends_away(s: Seq<char>, class: CharClass) -> (r: (int, int))
    ensures
        0 <= r.0 <= r.1 <= s.len(),
        trimmed_to(s, class) == s.subrange(r.0, r.1),
        forall|i: int| 0 <= i < r.0 ==> !class.holds(#[trigger] s[i]),
        forall|i: int| r.1 <= i < s.len() ==> !class.holds(#[trigger] s[i]),
        r.0 < r.1 ==> class.holds(s[r.0]) && class.holds(s[r.1 - 1]),
{
    let a = lemma_trim_front(s, class);
    let t = trim_front(s, class);
    let b = lemma_trim_back(t, class);
    assert(t.take(b) =~= s.subrange(a, a + b));
    assert forall|i: int| a + b <= i < s.len() implies !class.holds(#[trigger] s[i]) by {
        assert(t[i - a] == s[i]);
    }
    if b > 0 {
        assert(t[0] == s[a] && t[b - 1] == s[a + b - 1]);
    }
    (a, a + b)
}

/// Where a text begins once its front is trimmed.
proof fn lemma_trim_front(s: Seq<char>, class: CharClass) -> (a: int)
    ensures
        0 <= a <= s.len(),
        trim_front(s, class) == s.skip(a),
        forall|i: int| 0 <= i < a ==> !class.holds(#[trigger] s[i]),
        a < s.len() ==> class.holds(s[a]),
    decreases s.len(),
{
    if s.len() > 0 && !class.holds(s[0]) {
        let d = s.drop_first();
        let a = lemma_trim_front(d, class);
        assert(d.skip(a) =~= s.skip(a + 1));
        assert forall|i: int| 0 <= i < a + 1 implies !class.holds(#[trigger] s[i]) by {
            if i > 0 {
                assert(d[i - 1] == s[i]);
            }
        }
        if a < d.len() {
            assert(d[a] == s[a + 1]);
        }
        a + 1
    } else {
        assert(s.skip(0) =~= s);
        0
    }
}

/// Where a text ends once its back is trimmed.
proof fn lemma_trim_back(s: Seq<char>, class: CharClass) -> (b: int)
    ensures
        0 <= b <= s.len(),
        trim_back(s, class) == s.take(b),
        forall|i: int| b <= i < s.len() ==> !class.holds(#[trigger] s[i]),
        b > 0 ==> class.holds(s[b - 1]),
    decreases s.len(),
{
    if s.len() > 0 && !class.holds(s.last()) {
        let d = s.drop_last();
        let b = lemma_trim_back(d, class);
        assert(d.take(b) =~= s.take(b));
        assert forall|i: int| b <= i < s.len() implies !class.holds(#[trigger] s[i]) by {
            if i < d.len() {
                assert(d[i] == s[i]);
            }
        }
        b
    } else {
        assert(s.take(s.len() as int) =~= s);
        s.len() as int
    }
}

/// A text holds another where that one stands somewhere in it: it can be written as what
/// comes before, the other text, and what comes behind.
pub proof fn parts_stand_somewhere(before: Seq<char>, part: Seq<char>, behind: Seq<char>)
    ensures
        contains_text(before + part + behind, part),
{
    let s = before + part + behind;
    assert(s.subrange(before.len() as int, (before.len() + part.len()) as int) =~= part);
    assert(occurs_at(s, part, before.len() as int));
}

/// A text that another holds has each of its characters in it.
pub proof fn held_texts_are_parts(s: Seq<char>, part: Seq<char>) -> (at: int)
    requires
        contains_text(s, part),
    ensures
        0 <= at <= s.len() - part.len(),
        s == s.take(at) + part + s.skip(at + part.len()),
{
    let at = choose|at: int| occurs_at(s, part, at);
    assert(s =~= s.take(at) + part + s.skip(at + part.len()));
    at
}

/// The value of a text of digits.
pub open spec fn read_decimal(s: Seq<char>) -> int
    decreases s.len(),
{
    if s.len() == 0 {
        0
    } else {
        10 * read_decimal(s.drop_last()) + (s.last() as u32 - 48)
    }
}

/// A number in decimal is made of digits, none of them a leading zero, and reads as the
/// number.
pub proof fn decimals_read_as_their_numbers(n: nat)
    ensures
        decimal(n).len() > 0,
        forall|i: int| 0 <= i < decimal(n).len() ==> '0' <= (#[trigger] decimal(n)[i]) <= '9',
        decimal(n)[0] == '0' ==> n == 0,
        read_decimal(decimal(n)) == n,
    decreases n,
{
    if n < 10 {
        let s = decimal(n);
        assert(s.drop_last() =~= Seq::empty());
        assert(read_decimal(s.drop_last()) == 0);
        assert(s.last() as u32 - 48 == n);
    } else {
        decimals_read_as_their_numbers(n / 10);
        let d = decimal(n / 10);
        let s = decimal(n);
        assert(s.drop_last() =~= d);
        assert(s.last() as u32 - 48 == n % 10);
        assert(n == 10 * (n / 10) + n % 10);
        assert(s[0] == d[0]);
    }
}

/// What is collected of a list are the values that its items give, in order: a value is
/// there exactly where an item gives it.
pub proof fn collected_values_come_from_items<A, B>(s: Seq<A>, f: spec_fn(A) -> Option<B>, b: B)
    ensures
        collected(s, f).contains(b) <==> exists|i: int|
            0 <= i < s.len() && f(#[trigger] s[i]) == Some(b),
        collected(s, f).len() <= s.len(),
        (forall|i: int| 0 <= i < s.len() ==> f(#[trigger] s[i]) is Some) ==> collected(s, f).len()
            == s.len(),
    decreases s.len(),
{
    if s.len() > 0 {
        let d = s.drop_last();
        let n = s.len() - 1;
        collected_values_come_from_items(d, f, b);
        if f(s.last()) is Some {
            lemma_push_contains(collected(d, f), f(s.last())->0, b);
        }
        if exists|i: int| 0 <= i < d.len() && f(#[trigger] d[i]) == Some(b) {
            let i = choose|i: int| 0 <= i < d.len() && f(#[trigger] d[i]) == Some(b);
            assert(f(s[i]) == Some(b));
        }
        if exists|i: int| 0 <= i < s.len() && f(#[trigger] s[i]) == Some(b) {
            let i = choose|i: int| 0 <= i < s.len() && f(#[trigger] s[i]) == Some(b);
            if i < n {
                assert(f(d[i]) == Some(b));
            }
        }
        if forall|i: int| 0 <= i < s.len() ==> f(#[trigger] s[i]) is Some {
            assert forall|i: int| 0 <= i < d.len() implies f(#[trigger] d[i]) is Some by {
                assert(f(s[i]) is Some);
            }
            assert(f(s[n]) is Some);
        }
    }
}

/// Capital letters from A to Z become small ones, and all other characters stay.
pub proof fn only_capitals_become_small(s: Seq<char>, i: int)
    requires
        0 <= i < s.len(),
    ensures
        ascii_lowercase(s).len() == s.len(),
        'A' <= s[i] <= 'Z' ==> ascii_lowercase(s)[i] as u32 == s[i] as u32 + 32,
        !('A' <= s[i] <= 'Z') ==> ascii_lowercase(s)[i] == s[i],
{
    let c = s[i];
    if 'A' <= c <= 'Z' {
        assert(65 <= c as u32 <= 90);
    }
}

} // verus!
