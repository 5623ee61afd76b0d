//! Finding entities in text by fixed patterns: quoted code, file paths,
//! identifiers, quoted phrases and code symbols.

use crate::hash::{hex, sha256_hex, sha256_of};
use crate::text::{
    byte_len, char_alphanumeric, char_index, char_lowercase, char_uppercase, chars_of, collected,
    contains_char, find_char, lemma_char_index, runs, split_runs, starts_with, str_lowercase,
    string_of, trim, trim_back, trimmed, utf8_len, CharClass,
};
use vstd::hash_set::StringHashSet;
use vstd::prelude::*;
use vstd::string::StringExecFns;
use vstd::utf8::encode_utf8;

verus! {

/// What an entity is.
#[derive(Clone, Debug, PartialEq, Eq, Hash)]
pub enum EntityType {
    /// A file path.
    File,
    /// A code identifier.
    Code,
    /// A project name.
    Project,
    /// A quoted phrase.
    Reference,
    /// A code symbol, with the language where the pattern tells it.
    CodeSymbol { lang_hint: Option<String> },
}

/// An entity found in text.
#[derive(Clone, Debug, PartialEq, Eq, Hash)]
pub struct Entity {
    /// The name, in its normal form.
    pub name: String,
    /// What it is.
    pub entity_type: EntityType,
    /// The text as it was found.
    pub source_text: String,
}

/// What an entity is, in the model.
pub enum TypeView {
    File,
    Code,
    Project,
    Reference,
    CodeSymbol(Option<Seq<char>>),
}

/// An entity, in the model.
pub struct EntityView {
    pub name: Seq<char>,
    pub entity_type: TypeView,
    pub source_text: Seq<char>,
}

/// An entity that was found, with the key that tells repetitions apart.
pub struct Candidate {
    pub key: Seq<char>,
    pub entity: EntityView,
}

impl View for EntityType {
    type V = TypeView;

    open spec fn view(&self) -> TypeView {
        match self {
            EntityType::File => TypeView::File,
            EntityType::Code => TypeView::Code,
            EntityType::Project => TypeView::Project,
            EntityType::Reference => TypeView::Reference,
            EntityType::CodeSymbol { lang_hint } => TypeView::CodeSymbol(
                match lang_hint {
                    Some(l) => Some(l@),
                    None => None,
                },
            ),
        }
    }
}

impl View for Entity {
    type V = EntityView;

    open spec fn view(&self) -> EntityView {
        EntityView {
            name: self.name@,
            entity_type: self.entity_type@,
            source_text: self.source_text@,
        }
    }
}

/// Whether some candidate has the key `k`.
pub open spec fn key_taken(c: Seq<Candidate>, k: Seq<char>) -> bool {
    exists|i: int| 0 <= i < c.len() && (#[trigger] c[i]).key == k
}

/// The entities of the candidates, in order, each key only where it comes first.
pub open spec fn first_of_each(c: Seq<Candidate>) -> Seq<EntityView>
    decreases c.len(),
{
    if c.len() == 0 {
        Seq::empty()
    } else {
        let before = first_of_each(c.drop_last());
        if key_taken(c.drop_last(), c.last().key) {
            before
        } else {
            before.push(c.last().entity)
        }
    }
}

/// The entities as they are in the model.
pub open spec fn entities_view(e: Seq<Entity>) -> Seq<EntityView> {
    e.map_values(|x: Entity| x@)
}

/// The entities found so far, and the keys that are taken.
struct Extraction {
    entities: Vec<Entity>,
    seen: StringHashSet,
}

impl Extraction {
    /// Whether the state is what the candidates `c` lead to.
    spec fn holds(self, c: Seq<Candidate>) -> bool {
        &&& entities_view(self.entities@) == first_of_each(c)
        &&& forall|k: Seq<char>| #[trigger] key_taken(c, k) <==> self.seen@.contains(k)
    }

    /// The state before any candidate.
    fn new() -> (r: Extraction)
        ensures
            r.holds(Seq::empty()),
    {
        let r = Extraction { entities: Vec::new(), seen: StringHashSet::new() };
        assert(entities_view(r.entities@) =~= Seq::<EntityView>::empty());
        r
    }

    /// Takes in one candidate.
    fn take_in(&mut self, key: String, entity: Entity)
        ensures
            forall|c: Seq<Candidate>|
                old(self).holds(c) ==> #[trigger] final(self).holds(
                    c.push(Candidate { key: key@, entity: entity@ }),
                ),
    {
        let ghost e0 = self.entities@;
        let ghost s0 = self.seen@;
        let ghost cand = Candidate { key: key@, entity: entity@ };
        if self.seen.insert(key) {
            self.entities.push(entity);
            assert(entities_view(self.entities@) =~= entities_view(e0).push(entity@));
        }
        proof {
            assert forall|c: Seq<Candidate>| old(self).holds(c) implies #[trigger] self.holds(
                c.push(cand),
            ) by {
                let d = c.push(cand);
                assert(d.drop_last() =~= c);
                assert(s0.contains(cand.key) == key_taken(c, cand.key));
                assert forall|k: Seq<char>| #[trigger] key_taken(d, k) <==> self.seen@.contains(
                    k,
                ) by {
                    if key_taken(d, k) {
                        let w = choose|w: int| 0 <= w < d.len() && (#[trigger] d[w]).key == k;
                        if w < c.len() {
                            assert(c[w].key == k);
                            assert(key_taken(c, k));
                        }
                    }
                    if key_taken(c, k) {
                        let w = choose|w: int| 0 <= w < c.len() && (#[trigger] c[w]).key == k;
                        assert(d[w].key == k);
                    }
                    assert(d[c.len() as int].key == cand.key);
                }
            }
        }
    }
}

/// The id of an entity that is no code symbol: its name.
pub fn natural_canonical_id(name: &str) -> (r: String)
    ensures
        r@ == name@,
{
    name.to_owned()
}

/// The bytes that a provisional id is the digest of.
pub open spec fn provisional_message(
    name: Seq<char>,
    lang: Option<Seq<char>>,
    file: Option<Seq<char>>,
) -> Seq<u8> {
    let l = match lang {
        Some(l) => l,
        None => Seq::empty(),
    };
    let f = match file {
        Some(f) => f,
        None => Seq::empty(),
    };
    encode_utf8(name).push(124u8) + encode_utf8(l).push(124u8) + encode_utf8(f)
}

/// The provisional id of a code symbol.
pub open spec fn provisional_id(
    name: Seq<char>,
    lang: Option<Seq<char>>,
    file: Option<Seq<char>>,
) -> Seq<char> {
    "provisional:"@ + hex(sha256_of(provisional_message(name, lang, file)).take(20))
}

/// Appends bytes to a byte buffer.
fn add_bytes(buf: &mut Vec<u8>, bytes: &[u8])
    ensures
        final(buf)@ == old(buf)@ + bytes@,
{
    let mut i: usize = 0;
    let ghost b0 = buf@;
    while i < bytes.len()
        invariant
            i <= bytes@.len(),
            buf@ == b0 + bytes@.take(i as int),
        decreases bytes@.len() - i,
    {
        buf.push(bytes[i]);
        i += 1;
        assert(buf@ =~= b0 + bytes@.take(i as int));
    }
    assert(bytes@.take(i as int) =~= bytes@);
}

/// The id of a code symbol until an index grounds it. It depends on the name,
/// the language and the file alone.
pub fn provisional_canonical_id(name: &str, lang: Option<&str>, file: Option<&str>) -> (r: String)
    ensures
        r@ == provisional_id(
            name@,
            match lang {
                Some(l) => Some(l@),
                None => None,
            },
            match file {
                Some(f) => Some(f@),
                None => None,
            },
        ),
{
    let mut m: Vec<u8> = Vec::new();
    add_bytes(&mut m, name.as_bytes());
    m.push(124u8);
    match lang {
        Some(l) => add_bytes(&mut m, l.as_bytes()),
        None => {},
    }
    m.push(124u8);
    match file {
        Some(f) => add_bytes(&mut m, f.as_bytes()),
        None => {},
    }
    proof {
        reveal_with_fuel(vstd::utf8::encode_utf8, 2);
        let e = encode_utf8(Seq::<char>::empty());
        assert(e =~= Seq::<u8>::empty());
        assert(m@ =~= provisional_message(
            name@,
            match lang {
                Some(l) => Some(l@),
                None => None,
            },
            match file {
                Some(f) => Some(f@),
                None => None,
            },
        ));
    }
    let digest = sha256_hex(m.as_slice(), 20);
    let mut s = String::new();
    s.append("provisional:");
    s.append(digest.as_str());
    assert(s@ =~= "provisional:"@ + digest@);
    s
}

/// The id under which an entity is kept.
pub open spec fn canonical_id(e: EntityView, file: Option<Seq<char>>) -> Seq<char> {
    match e.entity_type {
        TypeView::CodeSymbol(lang) => provisional_id(e.name, lang, file),
        _ => e.name,
    }
}

/// The id under which an entity is kept: a provisional one, scoped by language
/// and file, for a code symbol, and the name for every other entity.
pub fn entity_canonical_id(entity: &Entity, file_hint: Option<&str>) -> (r: String)
    ensures
        r@ == canonical_id(
            entity@,
            match file_hint {
                Some(f) => Some(f@),
                None => None,
            },
        ),
{
    match &entity.entity_type {
        EntityType::CodeSymbol { lang_hint } => {
            match lang_hint {
                Some(l) => provisional_canonical_id(entity.name.as_str(), Some(l.as_str()), file_hint),
                None => provisional_canonical_id(entity.name.as_str(), None, file_hint),
            }
        },
        _ => natural_canonical_id(entity.name.as_str()),
    }
}

// ── The tests on words ──────────────────────────────────────────────

/// The position of the last `c`, or -1.
pub open spec fn last_index(s: Seq<char>, c: char) -> int
    decreases s.len(),
{
    if s.len() == 0 {
        -1
    } else if s.last() == c {
        s.len() - 1
    } else {
        last_index(s.drop_last(), c)
    }
}

/// Whether what follows the last dot can be a file extension.
pub open spec fn has_extension(s: Seq<char>) -> bool {
    let dot = last_index(s, '.');
    let ext = s.skip(dot + 1);
    &&& dot >= 0
    &&& 0 < ext.len()
    &&& byte_len(ext) <= 10
    &&& forall|i: int| 0 <= i < ext.len() ==> char_alphanumeric(#[trigger] ext[i])
}

/// Whether a text looks like a file path: it starts like one, or it has both a
/// slash and an extension.
pub open spec fn path_like(s: Seq<char>) -> bool {
    &&& byte_len(s) >= 3
    &&& (s.len() > 0 && s[0] == '/') || "./"@.is_prefix_of(s) || "../"@.is_prefix_of(s) || (
    s.contains('/') && has_extension(s))
}

/// Whether a text looks like a file path.
fn looks_like_path(s: &str) -> (r: bool)
    ensures
        r == path_like(s@),
{
    if utf8_len(s) < 3 {
        return false;
    }
    let v = chars_of(s);
    if v.len() > 0 && v[0] == '/' {
        return true;
    }
    if starts_with(s, "./") || starts_with(s, "../") {
        return true;
    }
    if !contains_char(s, '/') {
        return false;
    }
    let mut end: usize = v.len();
    assert(v@.take(v@.len() as int) =~= v@);
    while end > 0 && v[end - 1] != '.'
        invariant
            end <= v@.len(),
            last_index(v@, '.') == last_index(v@.take(end as int), '.'),
        decreases end,
    {
        assert(v@.take(end as int).drop_last() =~= v@.take(end - 1));
        end -= 1;
    }
    if end == 0 {
        return false;
    }
    let ext = string_of(&v, end, v.len());
    assert(ext@ =~= v@.skip(end as int));
    if end == v.len() || utf8_len(ext.as_str()) > 10 {
        return false;
    }
    let mut i: usize = end;
    while i < v.len()
        invariant
            end <= i <= v@.len(),
            v@ == s@,
            ext@ == v@.skip(end as int),
            last_index(v@, '.') == end - 1,
            !(s@.len() > 0 && s@[0] == '/'),
            !"./"@.is_prefix_of(s@),
            !"../"@.is_prefix_of(s@),
            forall|j: int| 0 <= j < i - end ==> char_alphanumeric(#[trigger] ext@[j]),
        decreases v@.len() - i,
    {
        if !v[i].is_alphanumeric() {
            assert(ext@[i - end] == v@[i as int]);
            return false;
        }
        i += 1;
    }
    true
}

/// How many characters of a text are uppercase.
pub open spec fn upper_count(s: Seq<char>) -> nat
    decreases s.len(),
{
    if s.len() == 0 {
        0
    } else {
        upper_count(s.drop_last()) + (if char_uppercase(s.last()) { 1nat } else { 0nat })
    }
}

/// Whether a text is in CamelCase: letters and digits, at least two of them
/// uppercase and at least one lowercase.
pub open spec fn camel_case(s: Seq<char>) -> bool {
    &&& upper_count(s) >= 2
    &&& exists|i: int| 0 <= i < s.len() && char_lowercase(#[trigger] s[i])
    &&& forall|i: int| 0 <= i < s.len() ==> char_alphanumeric(#[trigger] s[i])
}

/// Whether a text is in CamelCase.
fn is_camel_case(s: &str) -> (r: bool)
    ensures
        r == camel_case(s@),
{
    let v = chars_of(s);
    let mut upper: usize = 0;
    let mut lower = false;
    let mut i: usize = 0;
    while i < v.len()
        invariant
            v@ == s@,
            i <= v@.len(),
            upper <= i,
            upper == upper_count(v@.take(i as int)),
            lower <==> exists|j: int| 0 <= j < i && char_lowercase(#[trigger] v@[j]),
            forall|j: int| 0 <= j < i ==> char_alphanumeric(#[trigger] v@[j]),
        decreases v@.len() - i,
    {
        let c = v[i];
        if !c.is_alphanumeric() {
            return false;
        }
        if c.is_uppercase() {
            upper += 1;
        }
        if c.is_lowercase() {
            lower = true;
        }
        i += 1;
        assert(v@.take(i as int).drop_last() =~= v@.take(i - 1));
    }
    assert(v@.take(i as int) =~= s@);
    upper >= 2 && lower
}

/// Whether a character can stand in a snake_case identifier.
pub open spec fn snake_char(c: char) -> bool {
    char_lowercase(c) || '0' <= c <= '9' || c == '_'
}

/// Whether a text is in snake_case: small letters, digits and underscores, the
/// latter at neither end.
pub open spec fn snake_case(s: Seq<char>) -> bool {
    &&& forall|i: int| 0 <= i < s.len() ==> snake_char(#[trigger] s[i])
    &&& s.len() > 0 ==> s[0] != '_' && s.last() != '_'
}

/// Whether a text is in snake_case.
fn is_snake_case(s: &str) -> (r: bool)
    ensures
        r == snake_case(s@),
{
    let v = chars_of(s);
    let mut i: usize = 0;
    while i < v.len()
        invariant
            v@ == s@,
            i <= v@.len(),
            forall|j: int| 0 <= j < i ==> snake_char(#[trigger] v@[j]),
        decreases v@.len() - i,
    {
        let c = v[i];
        if !(c.is_lowercase() || ('0' <= c && c <= '9') || c == '_') {
            assert(!snake_char(v@[i as int]));
            return false;
        }
        i += 1;
    }
    v.len() == 0 || (v[0] != '_' && v[v.len() - 1] != '_')
}

/// The first character of the lowercase form of `c`, by the Unicode tables of
/// the standard library.
pub uninterp spec fn char_lower(c: char) -> char;

/// `char::to_lowercase`, its first character: it depends on the character alone.
#[verifier::external_body]
fn first_lowercase(c: char) -> (r: char)
    ensures
        r == char_lower(c),
{
    c.to_lowercase().next().unwrap_or(c)
}

/// Whether an underscore goes before position `i`: a word starts there, or the
/// last letter of an acronym stands there.
pub open spec fn word_starts(s: Seq<char>, i: int) -> bool {
    &&& 0 < i < s.len()
    &&& char_uppercase(s[i])
    &&& !char_uppercase(s[i - 1]) || (i + 1 < s.len() && char_lowercase(s[i + 1]))
}

/// The first `n` characters of `s` in snake_case.
pub open spec fn snake_prefix(s: Seq<char>, n: nat) -> Seq<char>
    decreases n,
{
    if n == 0 {
        Seq::empty()
    } else {
        let before = snake_prefix(s, (n - 1) as nat);
        let c = char_lower(s[n - 1]);
        if word_starts(s, n - 1) {
            before.push('_').push(c)
        } else {
            before.push(c)
        }
    }
}

/// CamelCase turned into snake_case: `AuthModule` into `auth_module` and
/// `HTTPClient` into `http_client`.
pub fn camel_to_snake(s: &str) -> (r: String)
    ensures
        r@ == snake_prefix(s@, s@.len()),
{
    let v = chars_of(s);
    let mut out = String::new();
    let mut i: usize = 0;
    while i < v.len()
        invariant
            v@ == s@,
            i <= v@.len(),
            out@ == snake_prefix(s@, i as nat),
        decreases v@.len() - i,
    {
        let c = v[i];
        if c.is_uppercase() && i > 0 {
            let prev_upper = v[i - 1].is_uppercase();
            let next_lower = v.len() - i > 1 && v[i + 1].is_lowercase();
            if !prev_upper || next_lower {
                out.push('_');
            }
        }
        out.push(first_lowercase(c));
        i += 1;
    }
    out
}

/// A path without a leading `./`.
pub open spec fn plain_path(s: Seq<char>) -> Seq<char> {
    if "./"@.is_prefix_of(s) {
        s.skip(2)
    } else {
        s
    }
}

/// A path without a leading `./`.
fn normalize_file_path(s: &str) -> (r: String)
    ensures
        r@ == plain_path(s@),
{
    if starts_with(s, "./") {
        let v = chars_of(s);
        proof {
            reveal_strlit("./");
        }
        let r = string_of(&v, 2, v.len());
        assert(r@ =~= s@.skip(2));
        r
    } else {
        s.to_owned()
    }
}

/// A name without white space around it.
fn normalize_entity_name(s: &str) -> (r: String)
    ensures
        r@ == trimmed(s@),
{
    trim(s)
}

// ── What each pattern finds ─────────────────────────────────────────

/// How many backticks a text begins with.
pub open spec fn tick_run(s: Seq<char>) -> nat
    decreases s.len(),
{
    if s.len() > 0 && s[0] == '`' {
        1 + tick_run(s.drop_first())
    } else {
        0
    }
}

/// The position of the first two backticks next to each other, or the length of the
/// text.
pub open spec fn fence_index(s: Seq<char>) -> nat
    decreases s.len(),
{
    if s.len() == 0 || (s.len() >= 2 && s[0] == '`' && s[1] == '`') {
        0
    } else {
        1 + fence_index(s.drop_first())
    }
}

/// The text behind a block of code, given what stands behind the backticks that open
/// it. Backticks that nothing closes open no block.
pub open spec fn behind_block(s: Seq<char>) -> Seq<char> {
    let close = fence_index(s) as int;
    if close >= s.len() {
        s
    } else {
        s.skip(close + tick_run(s.skip(close)))
    }
}

/// What stands between single backticks. Two backticks or more next to each other open
/// a block of code, up to the next such run, from which nothing is taken.
pub open spec fn backtick_spans(s: Seq<char>) -> Seq<Seq<char>>
    decreases s.len(),
{
    let open = char_index(s, '`') as int;
    let n = tick_run(s.skip(open)) as int;
    let rest = s.skip(open + n);
    if open >= s.len() {
        Seq::empty()
    } else if n > 1 {
        proof {
            lemma_behind_block(s, open);
        }
        backtick_spans(behind_block(rest))
    } else {
        proof {
            lemma_behind_block(s, open);
        }
        let close = char_index(rest, '`') as int;
        if close >= rest.len() {
            Seq::empty()
        } else {
            seq![rest.take(close)] + backtick_spans(rest.skip(close + 1))
        }
    }
}

/// A run of backticks is no longer than the text.
proof fn lemma_tick_run(s: Seq<char>)
    ensures
        tick_run(s) <= s.len(),
        s.len() > 0 && s[0] == '`' ==> tick_run(s) >= 1,
    decreases s.len(),
{
    if s.len() > 0 && s[0] == '`' {
        lemma_tick_run(s.drop_first());
    }
}

/// The position of two backticks is within the text.
proof fn lemma_fence_index(s: Seq<char>)
    ensures
        fence_index(s) <= s.len(),
    decreases s.len(),
{
    if s.len() > 0 && !(s.len() >= 2 && s[0] == '`' && s[1] == '`') {
        lemma_fence_index(s.drop_first());
    }
}

/// Where the first backtick stands the text has one, and less is left behind it.
pub proof fn lemma_behind_block(s: Seq<char>, open: int)
    requires
        open == char_index(s, '`'),
        open < s.len(),
    ensures
        ({
            let n = tick_run(s.skip(open)) as int;
            let rest = s.skip(open + n);
            &&& 1 <= n <= s.len() - open
            &&& rest.len() == s.len() - open - n
            &&& behind_block(rest).len() <= rest.len()
            &&& char_index(rest, '`') <= rest.len()
        }),
{
    lemma_char_index(s, '`');
    lemma_first_is(s, '`');
    let at = s.skip(open);
    assert(at[0] == '`');
    lemma_tick_run(at);
    let n = tick_run(at) as int;
    let rest = s.skip(open + n);
    lemma_char_index(rest, '`');
    lemma_fence_index(rest);
    let close = fence_index(rest) as int;
    if close < rest.len() {
        lemma_tick_run(rest.skip(close));
    }
}

/// The first position of a character holds it.
proof fn lemma_first_is(s: Seq<char>, c: char)
    ensures
        char_index(s, c) < s.len() ==> s[char_index(s, c) as int] == c,
    decreases s.len(),
{
    if s.len() > 0 && s[0] != c {
        lemma_first_is(s.drop_first(), c);
    }
}

/// What stands between two quotes `q`.
pub open spec fn quoted_spans(s: Seq<char>, q: char) -> Seq<Seq<char>>
    decreases s.len(),
{
    let open = char_index(s, q) as int;
    if open >= s.len() {
        Seq::empty()
    } else {
        let rest = s.skip(open + 1);
        let close = char_index(rest, q) as int;
        if close >= rest.len() {
            Seq::empty()
        } else {
            seq![rest.take(close)] + quoted_spans(rest.skip(close + 1), q)
        }
    }
}

/// The candidate that a text between backticks gives.
pub open spec fn backtick_candidate(span: Seq<char>) -> Option<Candidate> {
    let t = trimmed(span);
    if t.len() > 0 && byte_len(t) <= 200 {
        Some(
            Candidate {
                key: str_lowercase(t),
                entity: EntityView {
                    name: trimmed(t),
                    entity_type: if path_like(t) {
                        TypeView::File
                    } else {
                        TypeView::Code
                    },
                    source_text: t,
                },
            },
        )
    } else {
        None
    }
}

/// Whether a text begins with `./` or `../`.
pub open spec fn relative(s: Seq<char>) -> bool {
    s.len() >= 2 && s[0] == '.' && (s[1] == '/' || (s.len() >= 3 && s[1] == '.' && s[2] == '/'))
}

/// A word without the punctuation before it. The dots of `./` and `../` belong to it.
pub open spec fn path_front(s: Seq<char>) -> Seq<char>
    decreases s.len(),
{
    if s.len() > 0 && !CharClass::Inner.holds(s[0]) && !relative(s) {
        path_front(s.drop_first())
    } else {
        s
    }
}

/// A word without the punctuation around it. The dots of `./` and `../` belong to it.
pub open spec fn path_text(word: Seq<char>) -> Seq<char> {
    trim_back(path_front(word), CharClass::Inner)
}

/// The candidate that a word gives as a file path.
pub open spec fn path_candidate(word: Seq<char>) -> Option<Candidate> {
    let t = path_text(word);
    if path_like(t) {
        Some(
            Candidate {
                key: str_lowercase(t),
                entity: EntityView {
                    name: plain_path(t),
                    entity_type: TypeView::File,
                    source_text: t,
                },
            },
        )
    } else {
        None
    }
}

/// The candidate that an identifier gives as one in CamelCase.
pub open spec fn camel_candidate(word: Seq<char>) -> Option<Candidate> {
    if byte_len(word) >= 4 && camel_case(word) {
        Some(
            Candidate {
                key: str_lowercase(word),
                entity: EntityView {
                    name: snake_prefix(word, word.len()),
                    entity_type: TypeView::Code,
                    source_text: word,
                },
            },
        )
    } else {
        None
    }
}

/// The candidate that an identifier gives as one in snake_case.
pub open spec fn snake_candidate(word: Seq<char>) -> Option<Candidate> {
    if byte_len(word) >= 4 && snake_case(word) && word.contains('_') {
        Some(
            Candidate {
                key: str_lowercase(word),
                entity: EntityView {
                    name: str_lowercase(word),
                    entity_type: TypeView::Code,
                    source_text: word,
                },
            },
        )
    } else {
        None
    }
}

/// The candidate that a quoted text gives: a phrase of three words or more.
pub open spec fn quoted_candidate(span: Seq<char>) -> Option<Candidate> {
    let t = trimmed(span);
    if runs(t, CharClass::Visible).len() >= 3 && byte_len(t) <= 200 {
        Some(
            Candidate {
                key: str_lowercase(t),
                entity: EntityView {
                    name: t,
                    entity_type: TypeView::Reference,
                    source_text: t,
                },
            },
        )
    } else {
        None
    }
}

/// The candidate that a match of a code pattern gives.
pub open spec fn symbol_candidate(lang: Seq<char>, name: Option<Seq<char>>) -> Option<Candidate> {
    match name {
        Some(n) => if 2 <= byte_len(n) <= 200 {
            Some(
                Candidate {
                    key: "sym:"@ + lang + ":"@ + str_lowercase(n),
                    entity: EntityView {
                        name: n,
                        entity_type: TypeView::CodeSymbol(Some(lang)),
                        source_text: n,
                    },
                },
            )
        } else {
            None
        },
        None => None,
    }
}

/// Taking in what one item gives.
proof fn lemma_collected_push<A, B>(s: Seq<A>, a: A, f: spec_fn(A) -> Option<B>)
    ensures
        collected(s.push(a), f) == (match f(a) {
            Some(b) => collected(s, f).push(b),
            None => collected(s, f),
        }),
{
    assert(s.push(a).drop_last() =~= s);
}

/// The position behind the backticks that stand at `from`.
fn skip_ticks(v: &Vec<char>, from: usize) -> (r: usize)
    requires
        from <= v@.len(),
    ensures
        from <= r <= v@.len(),
        r == from + tick_run(v@.skip(from as int)),
{
    let mut i: usize = from;
    while i < v.len() && v[i] == '`'
        invariant
            from <= i <= v@.len(),
            tick_run(v@.skip(from as int)) == (i - from) + tick_run(v@.skip(i as int)),
        decreases v@.len() - i,
    {
        assert(v@.skip(i as int).drop_first() =~= v@.skip(i + 1));
        i += 1;
    }
    i
}

/// The position behind a block of code, given the one behind the backticks that open
/// it.
fn skip_block(v: &Vec<char>, from: usize) -> (r: usize)
    requires
        from <= v@.len(),
    ensures
        from <= r <= v@.len(),
        v@.skip(r as int) == behind_block(v@.skip(from as int)),
{
    let ghost s = v@.skip(from as int);
    let mut i: usize = from;
    while i < v.len() && !(v.len() - i >= 2 && v[i] == '`' && v[i + 1] == '`')
        invariant
            from <= i <= v@.len(),
            s == v@.skip(from as int),
            fence_index(s) == (i - from) + fence_index(v@.skip(i as int)),
        decreases v@.len() - i,
    {
        assert(v@.skip(i as int).drop_first() =~= v@.skip(i + 1));
        i += 1;
    }
    if i >= v.len() {
        return from;
    }
    let end = skip_ticks(v, i);
    proof {
        assert(s.skip(i - from) =~= v@.skip(i as int));
        assert(s.skip(end - from) =~= v@.skip(end as int));
    }
    end
}

/// The entities of the texts between backticks.
fn extract_backtick_entities(text: &str, ex: &mut Extraction, Ghost(c): Ghost<Seq<Candidate>>)
    requires
        old(ex).holds(c),
    ensures
        final(ex).holds(
            c + collected(backtick_spans(text@), |s: Seq<char>| backtick_candidate(s)),
        ),
{
    let ghost f = |s: Seq<char>| backtick_candidate(s);
    let v = chars_of(text);
    let mut start: usize = 0;
    let ghost mut done: Seq<Seq<char>> = Seq::empty();
    let mut more = true;
    proof {
        assert(v@.skip(0) =~= v@);
        assert(c + collected(done, f) =~= c);
        assert(done + backtick_spans(v@) =~= backtick_spans(v@));
    }
    while more
        invariant
            v@ == text@,
            start <= v@.len(),
            f == (|s: Seq<char>| backtick_candidate(s)),
            ex.holds(c + collected(done, f)),
            more ==> done + backtick_spans(v@.skip(start as int)) == backtick_spans(v@),
            !more ==> done == backtick_spans(v@),
        decreases (v@.len() - start) + (if more { 1int } else { 0int }),
    {
        let ghost s = v@.skip(start as int);
        let open = find_char(&v, start, '`');
        if open >= v.len() {
            more = false;
            assert(done + Seq::<Seq<char>>::empty() =~= done);
        } else {
            proof {
                lemma_behind_block(s, open - start);
                assert(s.skip(open - start) =~= v@.skip(open as int));
            }
            let open_pos = skip_ticks(&v, open);
            let ghost rest = s.skip(open_pos - start);
            assert(rest =~= v@.skip(open_pos as int));
            if open_pos - open > 1 {
                start = skip_block(&v, open_pos);
            } else {
                let close = find_char(&v, open_pos, '`');
                if close >= v.len() {
                    more = false;
                    assert(done + Seq::<Seq<char>>::empty() =~= done);
                } else {
                    let content = string_of(&v, open_pos, close);
                    let trimmed_text = trim(content.as_str());
                    let ghost before = collected(done, f);
                    proof {
                        assert(rest.take(close - open_pos) =~= content@);
                        assert(rest.skip(close - open_pos + 1) =~= v@.skip(close + 1));
                        lemma_collected_push(done, content@, f);
                        assert(done + (seq![content@] + backtick_spans(v@.skip(close + 1)))
                            =~= done.push(content@) + backtick_spans(v@.skip(close + 1)));
                        done = done.push(content@);
                    }
                    let n = utf8_len(trimmed_text.as_str());
                    let empty = chars_of(trimmed_text.as_str()).len() == 0;
                    if !empty && n <= 200 {
                        let t = trimmed_text.as_str();
                        let key = t.to_lowercase();
                        let entity_type = if looks_like_path(t) {
                            EntityType::File
                        } else {
                            EntityType::Code
                        };
                        let entity = Entity {
                            name: normalize_entity_name(t),
                            entity_type,
                            source_text: t.to_owned(),
                        };
                        ex.take_in(key, entity);
                        proof {
                            let cand = Candidate { key: key@, entity: entity@ };
                            assert(ex.holds((c + before).push(cand)));
                            assert((c + before).push(cand) =~= c + before.push(cand));
                        }
                    }
                    start = close + 1;
                }
            }
        }
    }
}

/// Whether the characters from `i` on begin with `./` or `../`.
fn begins_relative(v: &Vec<char>, i: usize) -> (r: bool)
    requires
        i <= v@.len(),
    ensures
        r == relative(v@.skip(i as int)),
{
    let n = v.len() - i;
    n >= 2 && v[i] == '.' && (v[i + 1] == '/' || (n >= 3 && v[i + 1] == '.' && v[i + 2] == '/'))
}

/// A word without the punctuation around it. The dots of `./` and `../` belong to it.
fn path_of_word(word: &str) -> (r: String)
    ensures
        r@ == path_text(word@),
{
    let v = chars_of(word);
    let mut from: usize = 0;
    assert(v@.skip(0) =~= v@);
    while from < v.len() && !CharClass::Inner.test(v[from]) && !begins_relative(&v, from)
        invariant
            from <= v@.len(),
            path_front(v@.skip(from as int)) == path_front(v@),
        decreases v@.len() - from,
    {
        assert(v@.skip(from as int).drop_first() =~= v@.skip(from + 1));
        from += 1;
    }
    let mut to: usize = v.len();
    assert(v@.subrange(from as int, to as int) =~= v@.skip(from as int));
    while to > from && !CharClass::Inner.test(v[to - 1])
        invariant
            from <= to <= v@.len(),
            trim_back(v@.subrange(from as int, to as int), CharClass::Inner) == path_text(v@),
        decreases to,
    {
        assert(v@.subrange(from as int, to as int).drop_last() =~= v@.subrange(
            from as int,
            to - 1,
        ));
        to -= 1;
    }
    string_of(&v, from, to)
}

/// The entities of the words that look like file paths.
fn extract_file_paths(text: &str, ex: &mut Extraction, Ghost(c): Ghost<Seq<Candidate>>)
    requires
        old(ex).holds(c),
    ensures
        final(ex).holds(
            c + collected(runs(text@, CharClass::Visible), |s: Seq<char>| path_candidate(s)),
        ),
{
    let ghost f = |s: Seq<char>| path_candidate(s);
    let words = split_runs(text, CharClass::Visible);
    let ghost all = words@.map_values(|w: String| w@);
    let mut i: usize = 0;
    assert(c + collected(all.take(0), f) =~= c);
    while i < words.len()
        invariant
            i <= words@.len(),
            all == words@.map_values(|w: String| w@),
            f == (|s: Seq<char>| path_candidate(s)),
            ex.holds(c + collected(all.take(i as int), f)),
        decreases words@.len() - i,
    {
        let t = path_of_word(words[i].as_str());
        let ghost before = collected(all.take(i as int), f);
        proof {
            lemma_collected_push(all.take(i as int), words@[i as int]@, f);
            assert(all.take(i as int).push(words@[i as int]@) =~= all.take(i + 1));
        }
        if looks_like_path(t.as_str()) {
            let key = t.as_str().to_lowercase();
            let entity = Entity {
                name: normalize_file_path(t.as_str()),
                entity_type: EntityType::File,
                source_text: t,
            };
            ex.take_in(key, entity);
            proof {
                let cand = Candidate { key: key@, entity: entity@ };
                assert(ex.holds((c + before).push(cand)));
                assert((c + before).push(cand) =~= c + before.push(cand));
            }
        }
        i += 1;
    }
    assert(all.take(i as int) =~= all);
}

/// The entities of the identifiers in CamelCase.
fn extract_camel_case(text: &str, ex: &mut Extraction, Ghost(c): Ghost<Seq<Candidate>>)
    requires
        old(ex).holds(c),
    ensures
        final(ex).holds(
            c + collected(runs(text@, CharClass::Identifier), |s: Seq<char>| camel_candidate(s)),
        ),
{
    let ghost f = |s: Seq<char>| camel_candidate(s);
    let words = split_runs(text, CharClass::Identifier);
    let ghost all = words@.map_values(|w: String| w@);
    let mut i: usize = 0;
    assert(c + collected(all.take(0), f) =~= c);
    while i < words.len()
        invariant
            i <= words@.len(),
            all == words@.map_values(|w: String| w@),
            f == (|s: Seq<char>| camel_candidate(s)),
            ex.holds(c + collected(all.take(i as int), f)),
        decreases words@.len() - i,
    {
        let word = words[i].as_str();
        let ghost before = collected(all.take(i as int), f);
        proof {
            lemma_collected_push(all.take(i as int), words@[i as int]@, f);
            assert(all.take(i as int).push(words@[i as int]@) =~= all.take(i + 1));
        }
        if utf8_len(word) >= 4 && is_camel_case(word) {
            let key = word.to_lowercase();
            let entity = Entity {
                name: camel_to_snake(word),
                entity_type: EntityType::Code,
                source_text: word.to_owned(),
            };
            ex.take_in(key, entity);
            proof {
                let cand = Candidate { key: key@, entity: entity@ };
                assert(ex.holds((c + before).push(cand)));
                assert((c + before).push(cand) =~= c + before.push(cand));
            }
        }
        i += 1;
    }
    assert(all.take(i as int) =~= all);
}

/// The entities of the identifiers in snake_case.
fn extract_snake_case(text: &str, ex: &mut Extraction, Ghost(c): Ghost<Seq<Candidate>>)
    requires
        old(ex).holds(c),
    ensures
        final(ex).holds(
            c + collected(runs(text@, CharClass::Identifier), |s: Seq<char>| snake_candidate(s)),
        ),
{
    let ghost f = |s: Seq<char>| snake_candidate(s);
    let words = split_runs(text, CharClass::Identifier);
    let ghost all = words@.map_values(|w: String| w@);
    let mut i: usize = 0;
    assert(c + collected(all.take(0), f) =~= c);
    while i < words.len()
        invariant
            i <= words@.len(),
            all == words@.map_values(|w: String| w@),
            f == (|s: Seq<char>| snake_candidate(s)),
            ex.holds(c + collected(all.take(i as int), f)),
        decreases words@.len() - i,
    {
        let word = words[i].as_str();
        let ghost before = collected(all.take(i as int), f);
        proof {
            lemma_collected_push(all.take(i as int), words@[i as int]@, f);
            assert(all.take(i as int).push(words@[i as int]@) =~= all.take(i + 1));
        }
        if utf8_len(word) >= 4 && is_snake_case(word) && contains_char(word, '_') {
            let key = word.to_lowercase();
            let entity = Entity {
                name: word.to_lowercase(),
                entity_type: EntityType::Code,
                source_text: word.to_owned(),
            };
            ex.take_in(key, entity);
            proof {
                let cand = Candidate { key: key@, entity: entity@ };
                assert(ex.holds((c + before).push(cand)));
                assert((c + before).push(cand) =~= c + before.push(cand));
            }
        }
        i += 1;
    }
    assert(all.take(i as int) =~= all);
}

/// The entities of the phrases between two quotes `q`.
fn extract_between(text: &str, q: char, ex: &mut Extraction, Ghost(c): Ghost<Seq<Candidate>>)
    requires
        old(ex).holds(c),
    ensures
        final(ex).holds(
            c + collected(quoted_spans(text@, q), |s: Seq<char>| quoted_candidate(s)),
        ),
{
    let ghost f = |s: Seq<char>| quoted_candidate(s);
    let v = chars_of(text);
    let mut start: usize = 0;
    let ghost mut done: Seq<Seq<char>> = Seq::empty();
    let mut more = true;
    proof {
        assert(v@.skip(0) =~= v@);
        assert(c + collected(done, f) =~= c);
        assert(done + quoted_spans(v@, q) =~= quoted_spans(v@, q));
    }
    while more
        invariant
            v@ == text@,
            start <= v@.len(),
            f == (|s: Seq<char>| quoted_candidate(s)),
            ex.holds(c + collected(done, f)),
            more ==> done + quoted_spans(v@.skip(start as int), q) == quoted_spans(v@, q),
            !more ==> done == quoted_spans(v@, q),
        decreases (v@.len() - start) + (if more { 1int } else { 0int }),
    {
        let ghost s = v@.skip(start as int);
        let open = find_char(&v, start, q);
        if open >= v.len() {
            more = false;
            assert(done + Seq::<Seq<char>>::empty() =~= done);
        } else {
            let open_pos = open + 1;
            let ghost rest = s.skip(open - start + 1);
            assert(rest =~= v@.skip(open_pos as int));
            let close = find_char(&v, open_pos, q);
            if close >= v.len() {
                more = false;
                assert(done + Seq::<Seq<char>>::empty() =~= done);
            } else {
                let content = string_of(&v, open_pos, close);
                let t = trim(content.as_str());
                let ghost before = collected(done, f);
                proof {
                    assert(rest.take(close - open_pos) =~= content@);
                    assert(rest.skip(close - open_pos + 1) =~= v@.skip(close + 1));
                    lemma_collected_push(done, content@, f);
                    assert(done + (seq![content@] + quoted_spans(v@.skip(close + 1), q))
                        =~= done.push(content@) + quoted_spans(v@.skip(close + 1), q));
                    done = done.push(content@);
                }
                let words = split_runs(t.as_str(), CharClass::Visible);
                assert(words@.map_values(|w: String| w@).len() == words@.len());
                if words.len() >= 3 && utf8_len(t.as_str()) <= 200 {
                    let key = t.as_str().to_lowercase();
                    let entity = Entity {
                        name: t.clone(),
                        entity_type: EntityType::Reference,
                        source_text: t,
                    };
                    ex.take_in(key, entity);
                    proof {
                        let cand = Candidate { key: key@, entity: entity@ };
                        assert(ex.holds((c + before).push(cand)));
                        assert((c + before).push(cand) =~= c + before.push(cand));
                    }
                }
                start = close + 1;
            }
        }
    }
}

// ── Code symbols ────────────────────────────────────────────────────

/// How many code patterns there are.
pub const SYMBOL_PATTERNS: usize = 6;

/// The code patterns: the language, and the regular expression whose first group
/// is the symbol. Qualified paths come before single names.
pub open spec fn symbol_pattern(i: int) -> (Seq<char>, Seq<char>) {
    if i == 0 {
        ("rust"@, r"\b([A-Za-z_][A-Za-z0-9_]*(?:::[A-Za-z_][A-Za-z0-9_]*)+)\b"@)
    } else if i == 1 {
        ("rust"@, r"\b(?:fn|struct|impl|trait|enum)\s+([A-Za-z_][A-Za-z0-9_]*)"@)
    } else if i == 2 {
        ("python"@, r"\b(?:def|class)\s+([A-Za-z_][A-Za-z0-9_]*)"@)
    } else if i == 3 {
        ("ts"@, r"\b(?:function|class)\s+([A-Za-z_$][A-Za-z0-9_$]*)"@)
    } else if i == 4 {
        ("go"@, r"\bfunc\s+(?:\([^)]*\)\s+)?([A-Za-z_][A-Za-z0-9_]*)"@)
    } else {
        ("java"@, r"\b(?:public|private|protected|internal)\s+(?:static\s+)?[A-Za-z_][A-Za-z0-9_<>,\s]*\s+([A-Za-z_][A-Za-z0-9_]*)\s*\("@)
    }
}

/// The code pattern `i`.
fn symbol_pattern_text(i: usize) -> (r: (&'static str, &'static str))
    ensures
        (r.0@, r.1@) == symbol_pattern(i as int),
{
    if i == 0 {
        ("rust", r"\b([A-Za-z_][A-Za-z0-9_]*(?:::[A-Za-z_][A-Za-z0-9_]*)+)\b")
    } else if i == 1 {
        ("rust", r"\b(?:fn|struct|impl|trait|enum)\s+([A-Za-z_][A-Za-z0-9_]*)")
    } else if i == 2 {
        ("python", r"\b(?:def|class)\s+([A-Za-z_][A-Za-z0-9_]*)")
    } else if i == 3 {
        ("ts", r"\b(?:function|class)\s+([A-Za-z_$][A-Za-z0-9_$]*)")
    } else if i == 4 {
        ("go", r"\bfunc\s+(?:\([^)]*\)\s+)?([A-Za-z_][A-Za-z0-9_]*)")
    } else {
        ("java", r"\b(?:public|private|protected|internal)\s+(?:static\s+)?[A-Za-z_][A-Za-z0-9_<>,\s]*\s+([A-Za-z_][A-Za-z0-9_]*)\s*\(")
    }
}

/// What the first group of a regular expression holds in each match in a text.
pub uninterp spec fn regex_captures(pattern: Seq<char>, text: Seq<char>) -> Seq<Option<Seq<char>>>;

/// Optional texts, in the model.
pub open spec fn captures_view(c: Seq<Option<String>>) -> Seq<Option<Seq<char>>> {
    c.map_values(
        |m: Option<String>|
            match m {
                Some(t) => Some(t@),
                None => None,
            },
    )
}

/// `regex::Regex::new` on one of the code patterns, which are all well formed,
/// then `captures_iter` and the first group of each match: what comes back
/// depends on the pattern and the text alone.
#[verifier::external_body]
fn regex_group_one(pattern: &str, text: &str) -> (r: Vec<Option<String>>)
    requires
        exists|i: int| 0 <= i < SYMBOL_PATTERNS && pattern@ == (#[trigger] symbol_pattern(i)).1,
    ensures
        captures_view(r@) == regex_captures(pattern@, text@),
{
    let re = regex::Regex::new(pattern).unwrap();
    re.captures_iter(text).map(|c| c.get(1).map(|m| m.as_str().to_string())).collect()
}

/// The candidates of the first `n` code patterns.
pub open spec fn symbol_candidates(captures: Seq<Seq<Option<Seq<char>>>>, n: nat) -> Seq<Candidate>
    decreases n,
{
    if n == 0 {
        Seq::empty()
    } else {
        symbol_candidates(captures, (n - 1) as nat) + collected(
            captures[n - 1],
            |m: Option<Seq<char>>| symbol_candidate(symbol_pattern(n - 1).0, m),
        )
    }
}

/// What every code pattern matches, in the model.
pub open spec fn all_captures_view(c: Seq<Vec<Option<String>>>) -> Seq<Seq<Option<Seq<char>>>> {
    c.map_values(|v: Vec<Option<String>>| captures_view(v@))
}

/// The symbols among the matches of one code pattern.
fn extract_symbols_of(
    lang: &str,
    captures: &Vec<Option<String>>,
    ex: &mut Extraction,
    Ghost(c): Ghost<Seq<Candidate>>,
)
    requires
        old(ex).holds(c),
    ensures
        final(ex).holds(
            c + collected(
                captures_view(captures@),
                |m: Option<Seq<char>>| symbol_candidate(lang@, m),
            ),
        ),
{
    let ghost f = |m: Option<Seq<char>>| symbol_candidate(lang@, m);
    let ghost all = captures_view(captures@);
    let mut i: usize = 0;
    assert(c + collected(all.take(0), f) =~= c);
    while i < captures.len()
        invariant
            i <= captures@.len(),
            all == captures_view(captures@),
            f == (|m: Option<Seq<char>>| symbol_candidate(lang@, m)),
            ex.holds(c + collected(all.take(i as int), f)),
        decreases captures@.len() - i,
    {
        let ghost before = collected(all.take(i as int), f);
        proof {
            lemma_collected_push(all.take(i as int), all[i as int], f);
            assert(all.take(i as int).push(all[i as int]) =~= all.take(i + 1));
        }
        match &captures[i] {
            Some(name) => {
                let n = utf8_len(name.as_str());
                if 2 <= n && n <= 200 {
                    let mut key = String::new();
                    key.append("sym:");
                    key.append(lang);
                    key.append(":");
                    key.append(name.as_str().to_lowercase().as_str());
                    assert(key@ =~= "sym:"@ + lang@ + ":"@ + str_lowercase(name@));
                    let entity = Entity {
                        name: name.clone(),
                        entity_type: EntityType::CodeSymbol { lang_hint: Some(lang.to_owned()) },
                        source_text: name.clone(),
                    };
                    ex.take_in(key, entity);
                    proof {
                        let cand = Candidate { key: key@, entity: entity@ };
                        assert(ex.holds((c + before).push(cand)));
                        assert((c + before).push(cand) =~= c + before.push(cand));
                    }
                }
            },
            None => {},
        }
        i += 1;
    }
    assert(all.take(i as int) =~= all);
}

/// What each code pattern matches in a text.
pub open spec fn text_captures(text: Seq<char>) -> Seq<Seq<Option<Seq<char>>>> {
    Seq::new(SYMBOL_PATTERNS as nat, |i: int| regex_captures(symbol_pattern(i).1, text))
}

/// What each code pattern matches in a text.
fn match_code_symbols(text: &str) -> (r: Vec<Vec<Option<String>>>)
    ensures
        all_captures_view(r@) == text_captures(text@),
{
    let mut out: Vec<Vec<Option<String>>> = Vec::new();
    let mut i: usize = 0;
    while i < SYMBOL_PATTERNS
        invariant
            i <= SYMBOL_PATTERNS,
            all_captures_view(out@) == text_captures(text@).take(i as int),
        decreases SYMBOL_PATTERNS - i,
    {
        let (_lang, pattern) = symbol_pattern_text(i);
        assert(pattern@ == symbol_pattern(i as int).1);
        let ghost before = all_captures_view(out@);
        let found = regex_group_one(pattern, text);
        out.push(found);
        assert(all_captures_view(out@) =~= before.push(captures_view(found@)));
        i += 1;
        assert(text_captures(text@).take(i as int) =~= text_captures(text@).take(i - 1).push(
            text_captures(text@)[i - 1],
        ));
    }
    assert(text_captures(text@).take(i as int) =~= text_captures(text@));
    out
}

/// Everything that is found in a text, given what the code patterns match in it,
/// with repetitions.
pub open spec fn candidates(
    text: Seq<char>,
    captures: Seq<Seq<Option<Seq<char>>>>,
) -> Seq<Candidate> {
    let visible = runs(text, CharClass::Visible);
    let identifiers = runs(text, CharClass::Identifier);
    collected(backtick_spans(text), |s: Seq<char>| backtick_candidate(s)) + collected(
        visible,
        |s: Seq<char>| path_candidate(s),
    ) + collected(identifiers, |s: Seq<char>| camel_candidate(s)) + collected(
        identifiers,
        |s: Seq<char>| snake_candidate(s),
    ) + collected(quoted_spans(text, '"'), |s: Seq<char>| quoted_candidate(s)) + collected(
        quoted_spans(text, '\''),
        |s: Seq<char>| quoted_candidate(s),
    ) + symbol_candidates(captures, SYMBOL_PATTERNS as nat)
}

/// The entities of a text, given what the code patterns match in it. Of several
/// with one key the first stays: backticks come before paths, paths before
/// identifiers, identifiers before phrases.
pub fn extract_entities_from(text: &str, captures: &Vec<Vec<Option<String>>>) -> (r: Vec<Entity>)
    requires
        captures@.len() == SYMBOL_PATTERNS,
    ensures
        entities_view(r@) == first_of_each(candidates(text@, all_captures_view(captures@))),
{
    let ghost caps = all_captures_view(captures@);
    let ghost visible = runs(text@, CharClass::Visible);
    let ghost identifiers = runs(text@, CharClass::Identifier);
    let ghost mut c: Seq<Candidate> = Seq::empty();
    let mut ex = Extraction::new();
    extract_backtick_entities(text, &mut ex, Ghost(c));
    proof {
        c = c + collected(backtick_spans(text@), |s: Seq<char>| backtick_candidate(s));
        assert(c =~= collected(backtick_spans(text@), |s: Seq<char>| backtick_candidate(s)));
    }
    extract_file_paths(text, &mut ex, Ghost(c));
    proof {
        c = c + collected(visible, |s: Seq<char>| path_candidate(s));
    }
    extract_camel_case(text, &mut ex, Ghost(c));
    proof {
        c = c + collected(identifiers, |s: Seq<char>| camel_candidate(s));
    }
    extract_snake_case(text, &mut ex, Ghost(c));
    proof {
        c = c + collected(identifiers, |s: Seq<char>| snake_candidate(s));
    }
    extract_between(text, '"', &mut ex, Ghost(c));
    proof {
        c = c + collected(quoted_spans(text@, '"'), |s: Seq<char>| quoted_candidate(s));
    }
    extract_between(text, '\'', &mut ex, Ghost(c));
    proof {
        c = c + collected(quoted_spans(text@, '\''), |s: Seq<char>| quoted_candidate(s));
    }
    let mut i: usize = 0;
    assert(c + symbol_candidates(caps, 0) =~= c);
    while i < SYMBOL_PATTERNS
        invariant
            i <= SYMBOL_PATTERNS,
            captures@.len() == SYMBOL_PATTERNS,
            caps == all_captures_view(captures@),
            ex.holds(c + symbol_candidates(caps, i as nat)),
        decreases SYMBOL_PATTERNS - i,
    {
        let (lang, _pattern) = symbol_pattern_text(i);
        assert(lang@ == symbol_pattern(i as int).0);
        let ghost before = symbol_candidates(caps, i as nat);
        extract_symbols_of(lang, &captures[i], &mut ex, Ghost(c + before));
        proof {
            let n = i + 1;
            let found = collected(caps[i as int], |m: Option<Seq<char>>| symbol_candidate(lang@, m));
            assert((|m: Option<Seq<char>>| symbol_candidate(lang@, m))
                =~= (|m: Option<Seq<char>>| symbol_candidate(symbol_pattern(n - 1).0, m)));
            assert(symbol_candidates(caps, n as nat) == before + found);
            assert((c + before) + found =~= c + (before + found));
        }
        i += 1;
    }
    assert(c + symbol_candidates(caps, SYMBOL_PATTERNS as nat) =~= candidates(text@, caps));
    ex.entities
}

/// The entities of a text.
pub fn extract_entities(text: &str) -> (r: Vec<Entity>)
    ensures
        entities_view(r@) == first_of_each(candidates(text@, text_captures(text@))),
{
    let captures = match_code_symbols(text);
    assert(all_captures_view(captures@).len() == captures@.len());
    extract_entities_from(text, &captures)
}

/// No two entities that are kept come from candidates with one key, and every
/// candidate's key is kept: the kept ones are as many as there are keys.
pub proof fn extraction_keeps_each_key_once(c: Seq<Candidate>)
    ensures
        first_of_each(c).len() == c.map_values(|x: Candidate| x.key).to_set().len(),
    decreases c.len(),
{
    let keys = c.map_values(|x: Candidate| x.key);
    if c.len() == 0 {
        assert(keys.to_set() =~= Set::<Seq<char>>::empty());
    } else {
        let d = c.drop_last();
        let dk = d.map_values(|x: Candidate| x.key);
        extraction_keeps_each_key_once(d);
        dk.lemma_cardinality_of_set();
        assert(keys =~= dk.push(c.last().key));
        assert(keys.to_set() =~= dk.to_set().insert(c.last().key)) by {
            assert forall|k: Seq<char>| keys.to_set().contains(k) <==> dk.to_set().insert(
                c.last().key,
            ).contains(k) by {
                if keys.contains(k) {
                    let i = choose|i: int| 0 <= i < keys.len() && keys[i] == k;
                    if i < dk.len() {
                        assert(dk[i] == k);
                    }
                }
                if dk.contains(k) {
                    let i = choose|i: int| 0 <= i < dk.len() && dk[i] == k;
                    assert(keys[i] == k);
                }
                assert(keys[keys.len() - 1] == c.last().key);
            }
        }
        assert(key_taken(d, c.last().key) <==> dk.to_set().contains(c.last().key)) by {
            if key_taken(d, c.last().key) {
                let i = choose|i: int| 0 <= i < d.len() && (#[trigger] d[i]).key == c.last().key;
                assert(dk[i] == c.last().key);
            }
            if dk.contains(c.last().key) {
                let i = choose|i: int| 0 <= i < dk.len() && dk[i] == c.last().key;
                assert(d[i].key == c.last().key);
            }
        }
    }
}

/// Each candidate has an entity in its place: that of a candidate with its key that comes
/// no later.
pub proof fn each_key_is_kept(c: Seq<Candidate>, i: int) -> (j: int)
    requires
        0 <= i < c.len(),
    ensures
        0 <= j <= i,
        c[j].key == c[i].key,
        first_of_each(c).contains(c[j].entity),
    decreases c.len(),
{
    let d = c.drop_last();
    let n = c.len() - 1;
    let before = first_of_each(d);
    if i < n {
        let j = each_key_is_kept(d, i);
        assert(d[i] == c[i] && d[j] == c[j]);
        crate::text::lemma_push_contains(before, c.last().entity, c[j].entity);
        j
    } else if key_taken(d, c[n].key) {
        let m = choose|m: int| 0 <= m < d.len() && (#[trigger] d[m]).key == c[n].key;
        let j = each_key_is_kept(d, m);
        assert(d[j] == c[j]);
        j
    } else {
        crate::text::lemma_push_contains(before, c.last().entity, c.last().entity);
        n
    }
}

/// Each entity that is kept is that of a candidate whose key comes there first.
pub proof fn kept_entities_come_first(c: Seq<Candidate>, k: int) -> (j: int)
    requires
        0 <= k < first_of_each(c).len(),
    ensures
        0 <= j < c.len(),
        c[j].entity == first_of_each(c)[k],
        forall|i: int| 0 <= i < j ==> (#[trigger] c[i]).key != c[j].key,
    decreases c.len(),
{
    let d = c.drop_last();
    let n = c.len() - 1;
    let before = first_of_each(d);
    if k < before.len() {
        let j = kept_entities_come_first(d, k);
        assert(d[j] == c[j]);
        assert forall|i: int| 0 <= i < j implies (#[trigger] c[i]).key != c[j].key by {
            assert(d[i] == c[i]);
        }
        j
    } else {
        assert forall|i: int| 0 <= i < n implies (#[trigger] c[i]).key != c[n].key by {
            assert(d[i] == c[i]);
        }
        n
    }
}

/// Where the candidates of a text come from.
proof fn lemma_candidate_kinds(
    text: Seq<char>,
    captures: Seq<Seq<Option<Seq<char>>>>,
    x: Candidate,
)
    ensures
        candidates(text, captures).contains(x) <==> {
            ||| collected(backtick_spans(text), |s: Seq<char>| backtick_candidate(s)).contains(x)
            ||| collected(
                runs(text, CharClass::Visible),
                |s: Seq<char>| path_candidate(s),
            ).contains(x)
            ||| collected(
                runs(text, CharClass::Identifier),
                |s: Seq<char>| camel_candidate(s),
            ).contains(x)
            ||| collected(
                runs(text, CharClass::Identifier),
                |s: Seq<char>| snake_candidate(s),
            ).contains(x)
            ||| collected(quoted_spans(text, '"'), |s: Seq<char>| quoted_candidate(s)).contains(x)
            ||| collected(quoted_spans(text, '\''), |s: Seq<char>| quoted_candidate(s)).contains(x)
            ||| symbol_candidates(captures, SYMBOL_PATTERNS as nat).contains(x)
        },
{
    let a = collected(backtick_spans(text), |s: Seq<char>| backtick_candidate(s));
    let b = collected(runs(text, CharClass::Visible), |s: Seq<char>| path_candidate(s));
    let c = collected(runs(text, CharClass::Identifier), |s: Seq<char>| camel_candidate(s));
    let d = collected(runs(text, CharClass::Identifier), |s: Seq<char>| snake_candidate(s));
    let e = collected(quoted_spans(text, '"'), |s: Seq<char>| quoted_candidate(s));
    let f = collected(quoted_spans(text, '\''), |s: Seq<char>| quoted_candidate(s));
    let g = symbol_candidates(captures, SYMBOL_PATTERNS as nat);
    lemma_add_contains(a, b, x);
    lemma_add_contains(a + b, c, x);
    lemma_add_contains(a + b + c, d, x);
    lemma_add_contains(a + b + c + d, e, x);
    lemma_add_contains(a + b + c + d + e, f, x);
    lemma_add_contains(a + b + c + d + e + f, g, x);
}

/// Two lists one behind the other hold what either holds.
proof fn lemma_add_contains<A>(a: Seq<A>, b: Seq<A>, x: A)
    ensures
        (a + b).contains(x) <==> a.contains(x) || b.contains(x),
{
    if a.contains(x) {
        let i = choose|i: int| 0 <= i < a.len() && a[i] == x;
        assert((a + b)[i] == x);
    }
    if b.contains(x) {
        let i = choose|i: int| 0 <= i < b.len() && b[i] == x;
        assert((a + b)[a.len() + i] == x);
    }
    if (a + b).contains(x) {
        let i = choose|i: int| 0 <= i < (a + b).len() && (a + b)[i] == x;
        if i < a.len() {
            assert(a[i] == x);
        } else {
            assert(b[i - a.len()] == x);
        }
    }
}

/// A candidate of a text has an entity in its place, of a candidate with its key.
proof fn lemma_candidate_found(
    text: Seq<char>,
    captures: Seq<Seq<Option<Seq<char>>>>,
    x: Candidate,
) -> (y: Candidate)
    requires
        candidates(text, captures).contains(x),
    ensures
        candidates(text, captures).contains(y),
        y.key == x.key,
        first_of_each(candidates(text, captures)).contains(y.entity),
{
    let c = candidates(text, captures);
    let i = choose|i: int| 0 <= i < c.len() && c[i] == x;
    let j = each_key_is_kept(c, i);
    c[j]
}

/// A text without backticks has nothing between any.
proof fn lemma_no_backticks(text: Seq<char>)
    requires
        !text.contains('`'),
    ensures
        backtick_spans(text).len() == 0,
{
    lemma_no_char(text, '`');
}

/// A character that a text does not hold is at none of its positions.
proof fn lemma_no_char(s: Seq<char>, c: char)
    requires
        !s.contains(c),
    ensures
        char_index(s, c) == s.len(),
    decreases s.len(),
{
    if s.len() > 0 {
        assert(s.contains(s[0]));
        assert(!s.drop_first().contains(c)) by {
            if s.drop_first().contains(c) {
                let i = choose|i: int| 0 <= i < s.drop_first().len() && s.drop_first()[i] == c;
                assert(s[i + 1] == c);
            }
        }
        lemma_no_char(s.drop_first(), c);
    }
}

/// The last dot of a text with a dot and then none.
proof fn lemma_last_dot(stem: Seq<char>, ext: Seq<char>)
    requires
        !ext.contains('.'),
    ensures
        last_index(stem.push('.') + ext, '.') == stem.len(),
    decreases ext.len(),
{
    let s = stem.push('.') + ext;
    if ext.len() == 0 {
        assert(s =~= stem.push('.'));
    } else {
        assert(s.last() == ext.last());
        assert(ext.contains(ext.last()));
        assert(s.drop_last() =~= stem.push('.') + ext.drop_last());
        assert(!ext.drop_last().contains('.')) by {
            if ext.drop_last().contains('.') {
                let i = choose|i: int| 0 <= i < ext.len() - 1 && ext.drop_last()[i] == '.';
                assert(ext[i] == '.');
            }
        }
        lemma_last_dot(stem, ext.drop_last());
    }
}

/// A word that no punctuation surrounds stays as it is.
proof fn lemma_path_text(w: Seq<char>)
    requires
        w.len() > 0,
        CharClass::Inner.holds(w[0]),
        CharClass::Inner.holds(w.last()),
    ensures
        path_text(w) == w,
{
}

/// A word of a text that holds a slash and ends in a dot and one to ten bytes of letters
/// and digits is found as a file, whatever it begins with, as long as no punctuation
/// surrounds it and nothing in the text stands between backticks.
pub proof fn paths_are_found_as_files(
    text: Seq<char>,
    captures: Seq<Seq<Option<Seq<char>>>>,
    stem: Seq<char>,
    ext: Seq<char>,
)
    requires
        !text.contains('`'),
        runs(text, CharClass::Visible).contains(stem.push('.') + ext),
        stem.contains('/'),
        byte_len(stem.push('.') + ext) >= 3,
        0 < ext.len(),
        byte_len(ext) <= 10,
        !ext.contains('.'),
        forall|i: int| 0 <= i < ext.len() ==> char_alphanumeric(#[trigger] ext[i]),
        ({
            let (a, z) = (stem[0], ext.last());
            &&& a != ',' && a != '.' && a != ';' && a != ':' && a != '(' && a != ')' && a != '"' && a
                != '\''
            &&& z != ',' && z != ';' && z != ':' && z != '(' && z != ')' && z != '"' && z != '\''
        }),
    ensures
        exists|e: EntityView| #[trigger]
            first_of_each(candidates(text, captures)).contains(e) && e.entity_type is File
                && str_lowercase(e.source_text) == str_lowercase(stem.push('.') + ext),
{
    let w = stem.push('.') + ext;
    let f = |s: Seq<char>| path_candidate(s);
    let words = runs(text, CharClass::Visible);
    assert(stem.len() > 0) by {
        let i = choose|i: int| 0 <= i < stem.len() && stem[i] == '/';
    }
    assert(w[0] == stem[0]);
    assert(w.last() == ext.last());
    assert(ext.contains(ext.last()));
    lemma_path_text(w);
    lemma_last_dot(stem, ext);
    assert(w.skip(stem.len() as int + 1) =~= ext);
    assert(w.contains('/')) by {
        let i = choose|i: int| 0 <= i < stem.len() && stem[i] == '/';
        assert(w[i] == '/');
    }
    assert(path_like(w));
    let x = path_candidate(w)->0;
    let k = choose|k: int| 0 <= k < words.len() && words[k] == w;
    assert(f(words[k]) == Some(x));
    crate::text::collected_values_come_from_items(words, f, x);
    lemma_file_candidate_found(text, captures, x);
}

/// A path candidate of a text without backticks has a file in its place.
proof fn lemma_file_candidate_found(
    text: Seq<char>,
    captures: Seq<Seq<Option<Seq<char>>>>,
    x: Candidate,
)
    requires
        !text.contains('`'),
        collected(runs(text, CharClass::Visible), |s: Seq<char>| path_candidate(s)).contains(x),
    ensures
        exists|e: EntityView| #[trigger]
            first_of_each(candidates(text, captures)).contains(e) && e.entity_type is File
                && str_lowercase(e.source_text) == x.key,
{
    let c = candidates(text, captures);
    let f = |s: Seq<char>| path_candidate(s);
    let words = runs(text, CharClass::Visible);
    let paths = collected(words, f);
    lemma_no_backticks(text);
    let none = collected(backtick_spans(text), |s: Seq<char>| backtick_candidate(s));
    assert(none.len() == 0);
    let i = choose|i: int| 0 <= i < paths.len() && paths[i] == x;
    assert(c.len() >= paths.len());
    assert forall|j: int| 0 <= j < paths.len() implies #[trigger] c[j] == paths[j] by {}
    assert(c[i].key == x.key);
    let j = each_key_is_kept(c, i);
    assert(paths.contains(paths[j]));
    crate::text::collected_values_come_from_items(words, f, paths[j]);
    let k = choose|k: int| 0 <= k < words.len() && f(#[trigger] words[k]) == Some(paths[j]);
    assert(path_candidate(words[k]) == Some(c[j]));
    assert(first_of_each(c).contains(c[j].entity));
}

/// A word of a text of three bytes or more that begins with `/`, `./` or `../` and does not
/// end in punctuation is found as a file, where nothing stands between backticks.
pub proof fn rooted_paths_are_found_as_files(
    text: Seq<char>,
    captures: Seq<Seq<Option<Seq<char>>>>,
    w: Seq<char>,
)
    requires
        !text.contains('`'),
        runs(text, CharClass::Visible).contains(w),
        byte_len(w) >= 3,
        w.len() >= 2,
        w[0] == '/' || (w[0] == '.' && w[1] == '/') || (w.len() >= 3 && w[0] == '.' && w[1] == '.'
            && w[2] == '/'),
        ({
            let z = w.last();
            z != ',' && z != '.' && z != ';' && z != ':' && z != '(' && z != ')' && z != '"' && z
                != '\''
        }),
    ensures
        exists|e: EntityView| #[trigger]
            first_of_each(candidates(text, captures)).contains(e) && e.entity_type is File
                && str_lowercase(e.source_text) == str_lowercase(w),
{
    let f = |s: Seq<char>| path_candidate(s);
    let words = runs(text, CharClass::Visible);
    reveal_strlit("./");
    reveal_strlit("../");
    if w[0] == '.' && w[1] == '/' {
        assert("./"@ =~= w.take(2));
        assert("./"@.is_prefix_of(w));
    } else if w[0] == '.' {
        assert("../"@ =~= w.take(3));
        assert("../"@.is_prefix_of(w));
    }
    assert(path_front(w) == w);
    assert(path_text(w) == w);
    assert(path_like(w));
    let x = path_candidate(w)->0;
    let k = choose|k: int| 0 <= k < words.len() && words[k] == w;
    assert(f(words[k]) == Some(x));
    crate::text::collected_values_come_from_items(words, f, x);
    lemma_file_candidate_found(text, captures, x);
}

/// What looks like a path holds a slash and has three bytes or more.
proof fn lemma_paths_hold_slashes(s: Seq<char>)
    requires
        path_like(s),
    ensures
        s.contains('/'),
        byte_len(s) >= 3,
{
    reveal_strlit("./");
    reveal_strlit("../");
    if s.len() > 0 && s[0] == '/' {
        assert(s.contains('/'));
    } else if "./"@.is_prefix_of(s) {
        assert(s[1] == "./"@[1]);
    } else if "../"@.is_prefix_of(s) {
        assert(s[2] == "../"@[2]);
    }
}

/// The file of every text holds a slash and has three bytes or more, so no plain word is
/// taken for a file.
pub proof fn files_hold_a_slash(
    text: Seq<char>,
    captures: Seq<Seq<Option<Seq<char>>>>,
    e: EntityView,
)
    requires
        first_of_each(candidates(text, captures)).contains(e),
        e.entity_type is File,
    ensures
        e.source_text.contains('/'),
        byte_len(e.source_text) >= 3,
{
    let x = lemma_entity_candidate(text, captures, e);
    lemma_candidate_kinds(text, captures, x);
    lemma_other_kinds(text, captures, x);
    let b = |s: Seq<char>| backtick_candidate(s);
    let p = |s: Seq<char>| path_candidate(s);
    crate::text::collected_values_come_from_items(backtick_spans(text), b, x);
    crate::text::collected_values_come_from_items(runs(text, CharClass::Visible), p, x);
    lemma_paths_hold_slashes_if(e.source_text);
}

/// What looks like a path holds a slash.
proof fn lemma_paths_hold_slashes_if(s: Seq<char>)
    ensures
        path_like(s) ==> s.contains('/') && byte_len(s) >= 3,
{
    if path_like(s) {
        lemma_paths_hold_slashes(s);
    }
}

/// The candidate of an entity that is kept.
proof fn lemma_entity_candidate(
    text: Seq<char>,
    captures: Seq<Seq<Option<Seq<char>>>>,
    e: EntityView,
) -> (x: Candidate)
    requires
        first_of_each(candidates(text, captures)).contains(e),
    ensures
        candidates(text, captures).contains(x),
        x.entity == e,
{
    let c = candidates(text, captures);
    let k = choose|k: int| 0 <= k < first_of_each(c).len() && first_of_each(c)[k] == e;
    let j = kept_entities_come_first(c, k);
    c[j]
}

/// What identifiers, phrases and code patterns give is never a file.
proof fn lemma_other_kinds(
    text: Seq<char>,
    captures: Seq<Seq<Option<Seq<char>>>>,
    x: Candidate,
)
    ensures
        collected(
            runs(text, CharClass::Identifier),
            |s: Seq<char>| camel_candidate(s),
        ).contains(x) ==> x.entity.entity_type is Code && x.key == str_lowercase(
            x.entity.source_text,
        ),
        collected(
            runs(text, CharClass::Identifier),
            |s: Seq<char>| snake_candidate(s),
        ).contains(x) ==> x.entity.entity_type is Code && x.key == str_lowercase(
            x.entity.source_text,
        ),
        collected(quoted_spans(text, '"'), |s: Seq<char>| quoted_candidate(s)).contains(x)
            ==> x.entity.entity_type is Reference && x.key == str_lowercase(x.entity.source_text)
            && runs(x.entity.source_text, CharClass::Visible).len() >= 3,
        collected(quoted_spans(text, '\''), |s: Seq<char>| quoted_candidate(s)).contains(x)
            ==> x.entity.entity_type is Reference && x.key == str_lowercase(x.entity.source_text)
            && runs(x.entity.source_text, CharClass::Visible).len() >= 3,
        symbol_candidates(captures, SYMBOL_PATTERNS as nat).contains(x)
            ==> x.entity.entity_type is CodeSymbol,
{
    let c = |s: Seq<char>| camel_candidate(s);
    let n = |s: Seq<char>| snake_candidate(s);
    let q = |s: Seq<char>| quoted_candidate(s);
    crate::text::collected_values_come_from_items(runs(text, CharClass::Identifier), c, x);
    crate::text::collected_values_come_from_items(runs(text, CharClass::Identifier), n, x);
    crate::text::collected_values_come_from_items(quoted_spans(text, '"'), q, x);
    crate::text::collected_values_come_from_items(quoted_spans(text, '\''), q, x);
    lemma_symbols_of(captures, SYMBOL_PATTERNS as nat, x);
}

/// What code patterns give are symbols.
proof fn lemma_symbols_of(captures: Seq<Seq<Option<Seq<char>>>>, n: nat, x: Candidate)
    ensures
        symbol_candidates(captures, n).contains(x) ==> x.entity.entity_type is CodeSymbol,
    decreases n,
{
    if n > 0 {
        lemma_symbols_of(captures, (n - 1) as nat, x);
        let f = |m: Option<Seq<char>>| symbol_candidate(symbol_pattern(n - 1).0, m);
        crate::text::collected_values_come_from_items(captures[n - 1], f, x);
        lemma_add_contains(
            symbol_candidates(captures, (n - 1) as nat),
            collected(captures[n - 1], f),
            x,
        );
    }
}

/// A text that is one path and nothing else gives exactly that file.
pub proof fn a_path_alone_is_that_file(
    w: Seq<char>,
    captures: Seq<Seq<Option<Seq<char>>>>,
    stem: Seq<char>,
    ext: Seq<char>,
)
    requires
        w == stem.push('.') + ext,
        !w.contains('`'),
        forall|i: int| 0 <= i < w.len() ==> CharClass::Visible.holds(#[trigger] w[i]),
        stem.contains('/'),
        byte_len(w) >= 3,
        0 < ext.len(),
        byte_len(ext) <= 10,
        !ext.contains('.'),
        forall|i: int| 0 <= i < ext.len() ==> char_alphanumeric(#[trigger] ext[i]),
        ({
            let (a, z) = (stem[0], ext.last());
            &&& a != ',' && a != '.' && a != ';' && a != ':' && a != '(' && a != ')' && a != '"' && a
                != '\''
            &&& z != ',' && z != ';' && z != ':' && z != '(' && z != ')' && z != '"' && z != '\''
        }),
    ensures
        first_of_each(candidates(w, captures)).contains(
            EntityView { name: w, entity_type: TypeView::File, source_text: w },
        ),
        forall|e: EntityView| #[trigger]
            first_of_each(candidates(w, captures)).contains(e) && e.entity_type is File ==> e.name
                == w && e.source_text == w,
{
    let words = runs(w, CharClass::Visible);
    crate::text::stretches_are_runs(w, CharClass::Visible, 0, w.len() as int);
    assert(w.subrange(0, w.len() as int) =~= w);
    paths_are_found_as_files(w, captures, stem, ext);
    let f = |s: Seq<char>| path_candidate(s);
    reveal_strlit("./");
    assert(w[0] == stem[0]) by {
        let i = choose|i: int| 0 <= i < stem.len() && stem[i] == '/';
    }
    assert(!"./"@.is_prefix_of(w)) by {
        if "./"@.is_prefix_of(w) {
            assert("./"@[0] == w[0]);
        }
    }
    assert(w.last() == ext.last());
    assert(ext.contains(ext.last()));
    lemma_path_text(w);
    assert forall|e: EntityView| #[trigger]
        first_of_each(candidates(w, captures)).contains(e) && e.entity_type is File implies e.name
        == w && e.source_text == w by {
        let x = lemma_entity_candidate(w, captures, e);
        lemma_candidate_kinds(w, captures, x);
        lemma_other_kinds(w, captures, x);
        lemma_no_backticks(w);
        assert(collected(backtick_spans(w), |s: Seq<char>| backtick_candidate(s)).len() == 0);
        crate::text::collected_values_come_from_items(words, f, x);
        let k = choose|k: int| 0 <= k < words.len() && f(#[trigger] words[k]) == Some(x);
        let (a, b) = crate::text::runs_are_stretches(w, CharClass::Visible, k);
        assert(a == 0) by {
            if a > 0 {
                assert(CharClass::Visible.holds(w[a - 1]));
            }
        }
        assert(b == w.len()) by {
            if b < w.len() {
                assert(CharClass::Visible.holds(w[b]));
            }
        }
        assert(words[k] =~= w);
    }
    let e = choose|e: EntityView| #[trigger]
        first_of_each(candidates(w, captures)).contains(e) && e.entity_type is File
            && str_lowercase(e.source_text) == str_lowercase(w);
    assert(e == (EntityView { name: w, entity_type: TypeView::File, source_text: w }));
}

/// What is found of a candidate that comes of backticks, a path or an identifier is a file
/// or code.
proof fn lemma_early_candidate(
    text: Seq<char>,
    captures: Seq<Seq<Option<Seq<char>>>>,
    x: Candidate,
)
    requires
        collected(
            runs(text, CharClass::Identifier),
            |s: Seq<char>| camel_candidate(s),
        ).contains(x) || collected(
            runs(text, CharClass::Identifier),
            |s: Seq<char>| snake_candidate(s),
        ).contains(x),
    ensures
        exists|e: EntityView| #[trigger]
            first_of_each(candidates(text, captures)).contains(e) && (e.entity_type is Code
                || e.entity_type is File) && str_lowercase(e.source_text) == x.key,
{
    let c = candidates(text, captures);
    let b = |s: Seq<char>| backtick_candidate(s);
    let p = |s: Seq<char>| path_candidate(s);
    let m = |s: Seq<char>| camel_candidate(s);
    let n = |s: Seq<char>| snake_candidate(s);
    let words = runs(text, CharClass::Visible);
    let ids = runs(text, CharClass::Identifier);
    let parts = (
        collected(backtick_spans(text), b),
        collected(words, p),
        collected(ids, m),
        collected(ids, n),
    );
    let early = parts.0 + parts.1 + parts.2 + parts.3;
    lemma_add_contains(parts.0, parts.1, x);
    lemma_add_contains(parts.0 + parts.1, parts.2, x);
    lemma_add_contains(parts.0 + parts.1 + parts.2, parts.3, x);
    let i = choose|i: int| 0 <= i < early.len() && early[i] == x;
    assert forall|j: int| 0 <= j < early.len() implies #[trigger] c[j] == early[j] by {}
    assert(c[i] == x);
    let j = each_key_is_kept(c, i);
    let y = c[j];
    assert(early[j] == y);
    lemma_add_contains(parts.0, parts.1, y);
    lemma_add_contains(parts.0 + parts.1, parts.2, y);
    lemma_add_contains(parts.0 + parts.1 + parts.2, parts.3, y);
    crate::text::collected_values_come_from_items(backtick_spans(text), b, y);
    crate::text::collected_values_come_from_items(words, p, y);
    lemma_other_kinds(text, captures, y);
    assert(first_of_each(c).contains(y.entity));
}

/// Two uppercase characters at different positions are counted.
proof fn lemma_two_capitals(s: Seq<char>, i: int, j: int)
    requires
        0 <= i < j < s.len(),
        char_uppercase(s[i]),
        char_uppercase(s[j]),
    ensures
        upper_count(s) >= 2,
    decreases s.len(),
{
    let d = s.drop_last();
    if j < d.len() {
        assert(d[i] == s[i] && d[j] == s[j]);
        lemma_two_capitals(d, i, j);
    } else {
        assert(d[i] == s[i]);
        lemma_one_capital(d, i);
    }
}

/// An uppercase character is counted.
proof fn lemma_one_capital(s: Seq<char>, i: int)
    requires
        0 <= i < s.len(),
        char_uppercase(s[i]),
    ensures
        upper_count(s) >= 1,
    decreases s.len(),
{
    let d = s.drop_last();
    if i < d.len() {
        assert(d[i] == s[i]);
        lemma_one_capital(d, i);
    }
}

/// An identifier of letters and digits with two capitals, wherever they stand, and a small
/// letter, of four bytes or more, is found.
pub proof fn camel_case_is_found(
    text: Seq<char>,
    captures: Seq<Seq<Option<Seq<char>>>>,
    w: Seq<char>,
    i: int,
    j: int,
    k: int,
)
    requires
        runs(text, CharClass::Identifier).contains(w),
        byte_len(w) >= 4,
        0 <= i < j < w.len(),
        0 <= k < w.len(),
        char_uppercase(w[i]),
        char_uppercase(w[j]),
        char_lowercase(w[k]),
        forall|n: int| 0 <= n < w.len() ==> char_alphanumeric(#[trigger] w[n]),
    ensures
        exists|e: EntityView| #[trigger]
            first_of_each(candidates(text, captures)).contains(e) && (e.entity_type is Code
                || e.entity_type is File) && str_lowercase(e.source_text) == str_lowercase(w),
{
    lemma_two_capitals(w, i, j);
    let f = |s: Seq<char>| camel_candidate(s);
    let ids = runs(text, CharClass::Identifier);
    let x = camel_candidate(w)->0;
    let n = choose|n: int| 0 <= n < ids.len() && ids[n] == w;
    assert(f(ids[n]) == Some(x));
    crate::text::collected_values_come_from_items(ids, f, x);
    lemma_early_candidate(text, captures, x);
}

/// An identifier of small letters, digits and underscores, with an underscore that stands
/// at neither end, of four bytes or more, is found.
pub proof fn snake_case_is_found(
    text: Seq<char>,
    captures: Seq<Seq<Option<Seq<char>>>>,
    w: Seq<char>,
    i: int,
)
    requires
        runs(text, CharClass::Identifier).contains(w),
        byte_len(w) >= 4,
        0 < i < w.len() - 1,
        w[i] == '_',
        w[0] != '_',
        w.last() != '_',
        forall|n: int|
            0 <= n < w.len() ==> char_lowercase(#[trigger] w[n]) || '0' <= w[n] <= '9' || w[n]
                == '_',
    ensures
        exists|e: EntityView| #[trigger]
            first_of_each(candidates(text, captures)).contains(e) && (e.entity_type is Code
                || e.entity_type is File) && str_lowercase(e.source_text) == str_lowercase(w),
{
    let f = |s: Seq<char>| snake_candidate(s);
    let ids = runs(text, CharClass::Identifier);
    assert(w.contains('_'));
    let x = snake_candidate(w)->0;
    let n = choose|n: int| 0 <= n < ids.len() && ids[n] == w;
    assert(f(ids[n]) == Some(x));
    crate::text::collected_values_come_from_items(ids, f, x);
    lemma_early_candidate(text, captures, x);
}

/// Every phrase has three words or more and no more than 200 bytes, and goes by its text.
pub proof fn phrases_have_three_words(
    text: Seq<char>,
    captures: Seq<Seq<Option<Seq<char>>>>,
    e: EntityView,
)
    requires
        first_of_each(candidates(text, captures)).contains(e),
        e.entity_type is Reference,
    ensures
        runs(e.source_text, CharClass::Visible).len() >= 3,
        byte_len(e.source_text) <= 200,
        e.name == e.source_text,
{
    let x = lemma_entity_candidate(text, captures, e);
    lemma_candidate_kinds(text, captures, x);
    lemma_other_kinds(text, captures, x);
    let b = |s: Seq<char>| backtick_candidate(s);
    let p = |s: Seq<char>| path_candidate(s);
    let q = |s: Seq<char>| quoted_candidate(s);
    crate::text::collected_values_come_from_items(backtick_spans(text), b, x);
    crate::text::collected_values_come_from_items(runs(text, CharClass::Visible), p, x);
    crate::text::collected_values_come_from_items(quoted_spans(text, '"'), q, x);
    crate::text::collected_values_come_from_items(quoted_spans(text, '\''), q, x);
}

/// The first position of a character behind a text without it.
proof fn lemma_char_behind(a: Seq<char>, c: char, b: Seq<char>)
    requires
        !a.contains(c),
    ensures
        char_index(a.push(c) + b, c) == a.len(),
    decreases a.len(),
{
    let s = a.push(c) + b;
    if a.len() > 0 {
        assert(a.contains(a[0]));
        assert(s[0] == a[0]);
        assert(!a.drop_first().contains(c)) by {
            if a.drop_first().contains(c) {
                let i = choose|i: int| 0 <= i < a.len() - 1 && a.drop_first()[i] == c;
                assert(a[i + 1] == c);
            }
        }
        lemma_char_behind(a.drop_first(), c, b);
        assert(s.drop_first() =~= a.drop_first().push(c) + b);
    }
}

/// What stands between the first two quotes of a text is the first of its quoted parts.
proof fn lemma_first_quoted(a: Seq<char>, q: char, phrase: Seq<char>, b: Seq<char>)
    requires
        !a.contains(q),
        !phrase.contains(q),
    ensures
        quoted_spans(a.push(q) + phrase.push(q) + b, q).len() > 0,
        quoted_spans(a.push(q) + phrase.push(q) + b, q)[0] == phrase,
{
    let s = a.push(q) + phrase.push(q) + b;
    let rest = phrase.push(q) + b;
    assert(s =~= a.push(q) + rest);
    lemma_char_behind(a, q, rest);
    assert(s.skip(a.len() as int + 1) =~= rest);
    lemma_char_behind(phrase, q, b);
    assert(rest.take(phrase.len() as int) =~= phrase);
}

/// A phrase of three words or more between the first two quotes of a text, double or
/// single, is found, where it has no more than 200 bytes.
pub proof fn quoted_phrases_are_found(
    a: Seq<char>,
    q: char,
    phrase: Seq<char>,
    b: Seq<char>,
    captures: Seq<Seq<Option<Seq<char>>>>,
)
    requires
        q == '"' || q == '\'',
        !a.contains(q),
        !phrase.contains(q),
        runs(trimmed(phrase), CharClass::Visible).len() >= 3,
        byte_len(trimmed(phrase)) <= 200,
    ensures
        exists|e: EntityView| #[trigger]
            first_of_each(candidates(a.push(q) + phrase.push(q) + b, captures)).contains(e)
                && str_lowercase(e.source_text) == str_lowercase(trimmed(phrase))
                && !(e.entity_type is CodeSymbol),
{
    let text = a.push(q) + phrase.push(q) + b;
    let spans = quoted_spans(text, q);
    let f = |s: Seq<char>| quoted_candidate(s);
    lemma_first_quoted(a, q, phrase, b);
    let x = quoted_candidate(phrase)->0;
    assert(f(spans[0]) == Some(x));
    crate::text::collected_values_come_from_items(spans, f, x);
    let c = candidates(text, captures);
    let bt = |s: Seq<char>| backtick_candidate(s);
    let p = |s: Seq<char>| path_candidate(s);
    let m = |s: Seq<char>| camel_candidate(s);
    let n = |s: Seq<char>| snake_candidate(s);
    let words = runs(text, CharClass::Visible);
    let ids = runs(text, CharClass::Identifier);
    let p0 = collected(backtick_spans(text), bt);
    let p1 = p0 + collected(words, p);
    let p2 = p1 + collected(ids, m);
    let p3 = p2 + collected(ids, n);
    let p4 = p3 + collected(quoted_spans(text, '"'), f);
    let early = p4 + collected(quoted_spans(text, '\''), f);
    lemma_add_contains(p3, collected(quoted_spans(text, '"'), f), x);
    lemma_add_contains(p4, collected(quoted_spans(text, '\''), f), x);
    let i = choose|i: int| 0 <= i < early.len() && early[i] == x;
    assert forall|j: int| 0 <= j < early.len() implies #[trigger] c[j] == early[j] by {}
    assert(c[i] == x);
    let j = each_key_is_kept(c, i);
    let y = c[j];
    assert(early[j] == y);
    lemma_add_contains(p0, collected(words, p), y);
    lemma_add_contains(p1, collected(ids, m), y);
    lemma_add_contains(p2, collected(ids, n), y);
    lemma_add_contains(p3, collected(quoted_spans(text, '"'), f), y);
    lemma_add_contains(p4, collected(quoted_spans(text, '\''), f), y);
    crate::text::collected_values_come_from_items(backtick_spans(text), bt, y);
    crate::text::collected_values_come_from_items(words, p, y);
    lemma_other_kinds(text, captures, y);
    assert(first_of_each(c).contains(y.entity));
}

/// What stands between the first two backticks of a text, where they are single ones, is
/// the first entity: a file where it looks like a path, else code.
pub proof fn code_between_backticks_comes_first(
    a: Seq<char>,
    code: Seq<char>,
    b: Seq<char>,
    captures: Seq<Seq<Option<Seq<char>>>>,
)
    requires
        !a.contains('`'),
        !code.contains('`'),
        trimmed(code).len() > 0,
        byte_len(trimmed(code)) <= 200,
    ensures
        ({
            let e = first_of_each(candidates(a.push('`') + code.push('`') + b, captures));
            &&& e.contains(e[0])
            &&& e[0].source_text == trimmed(code)
            &&& e[0].entity_type is Code || e[0].entity_type is File
            &&& e[0].entity_type is File ==> trimmed(code).contains('/')
            &&& trimmed(code)[0] == '/' && byte_len(trimmed(code)) >= 3 ==> e[0].entity_type is File
        }),
{
    let text = a.push('`') + code.push('`') + b;
    let rest = code.push('`') + b;
    let f = |s: Seq<char>| backtick_candidate(s);
    assert(text =~= a.push('`') + rest);
    lemma_char_behind(a, '`', rest);
    let from = text.skip(a.len() as int);
    assert(from[0] == '`');
    let (p, q) = crate::text::trimming_takes_the_ends_away(code, CharClass::Visible);
    assert(code.len() > 0);
    assert(code.contains(code[0]));
    assert(from[1] == code[0]);
    assert(from.drop_first()[0] == code[0]);
    assert(tick_run(from.drop_first()) == 0);
    assert(tick_run(from) == 1);
    assert(text.skip(a.len() as int + 1) =~= rest);
    lemma_char_behind(code, '`', b);
    assert(rest.take(code.len() as int) =~= code);
    let spans = backtick_spans(text);
    assert(spans[0] == code);
    let x = backtick_candidate(code)->0;
    lemma_collected_first(spans, f, x);
    let c = candidates(text, captures);
    assert(c[0] == x);
    lemma_first_entity(c);
    lemma_paths_hold_slashes_if(trimmed(code));
}

/// The value of the first item comes first.
proof fn lemma_collected_first<A, B>(s: Seq<A>, f: spec_fn(A) -> Option<B>, b: B)
    requires
        s.len() > 0,
        f(s[0]) == Some(b),
    ensures
        collected(s, f).len() > 0,
        collected(s, f)[0] == b,
    decreases s.len(),
{
    if s.len() > 1 {
        assert(s.drop_last()[0] == s[0]);
        lemma_collected_first(s.drop_last(), f, b);
    } else {
        assert(s.drop_last() =~= Seq::empty());
        assert(collected(s.drop_last(), f).len() == 0);
    }
}

/// The entity of the first candidate comes first.
proof fn lemma_first_entity(c: Seq<Candidate>)
    requires
        c.len() > 0,
    ensures
        first_of_each(c).len() > 0,
        first_of_each(c)[0] == c[0].entity,
    decreases c.len(),
{
    if c.len() > 1 {
        assert(c.drop_last()[0] == c[0]);
        lemma_first_entity(c.drop_last());
    } else {
        assert(c.drop_last() =~= Seq::empty());
        assert(first_of_each(c.drop_last()).len() == 0);
    }
}

/// A symbol that a code pattern matches is among the candidates, in the language of the
/// pattern, under a key of its own, where it has from 2 to 200 bytes.
pub proof fn matched_symbols_are_candidates(
    text: Seq<char>,
    captures: Seq<Seq<Option<Seq<char>>>>,
    i: int,
    name: Seq<char>,
)
    requires
        0 <= i < 6,
        captures[i].contains(Some(name)),
        2 <= byte_len(name) <= 200,
    ensures
        exists|x: Candidate| #[trigger]
            candidates(text, captures).contains(x) && x.entity.name == name && x.entity.source_text
                == name && x.entity.entity_type == TypeView::CodeSymbol(
                Some(
                    if i <= 1 {
                        "rust"@
                    } else if i == 2 {
                        "python"@
                    } else if i == 3 {
                        "ts"@
                    } else if i == 4 {
                        "go"@
                    } else {
                        "java"@
                    },
                ),
            ),
{
    let x = symbol_candidate(symbol_pattern(i).0, Some(name))->0;
    lemma_symbol_there(captures, SYMBOL_PATTERNS as nat, i, name, x);
    lemma_candidate_kinds(text, captures, x);
    assert(candidates(text, captures).contains(x));
}

/// A symbol that one of the first code patterns matches is among their candidates.
proof fn lemma_symbol_there(
    captures: Seq<Seq<Option<Seq<char>>>>,
    n: nat,
    i: int,
    name: Seq<char>,
    x: Candidate,
)
    requires
        0 <= i < n,
        captures[i].contains(Some(name)),
        symbol_candidate(symbol_pattern(i).0, Some(name)) == Some(x),
    ensures
        symbol_candidates(captures, n).contains(x),
    decreases n,
{
    let f = |m: Option<Seq<char>>| symbol_candidate(symbol_pattern(n - 1).0, m);
    let before = symbol_candidates(captures, (n - 1) as nat);
    lemma_add_contains(before, collected(captures[n - 1], f), x);
    if i < n - 1 {
        lemma_symbol_there(captures, (n - 1) as nat, i, name, x);
    } else {
        let k = choose|k: int| 0 <= k < captures[i].len() && captures[i][k] == Some(name);
        assert(f(captures[i][k]) == Some(x));
        crate::text::collected_values_come_from_items(captures[i], f, x);
    }
}

/// Code symbols are kept under a provisional id, all other entities under their names.
/// Symbols in different languages or files have different ids where the digests differ.
pub proof fn only_symbols_have_provisional_ids(e: EntityView, file: Option<Seq<char>>)
    ensures
        e.entity_type is CodeSymbol ==> "provisional:"@.is_prefix_of(canonical_id(e, file)),
        !(e.entity_type is CodeSymbol) ==> canonical_id(e, file) == e.name,
        !(e.entity_type is CodeSymbol) ==> canonical_id(e, file) == canonical_id(e, None),
{
}

/// A character of an identifier is written small, with an underscore before it exactly
/// where a capital begins a word: behind a character that is no capital, or before a small
/// letter, but not at the very front.
pub proof fn capitals_begin_words(s: Seq<char>, i: int)
    requires
        0 <= i < s.len(),
    ensures
        ({
            let begins = i > 0 && char_uppercase(s[i]) && (!char_uppercase(s[i - 1]) || (i + 1
                < s.len() && char_lowercase(s[i + 1])));
            snake_prefix(s, (i + 1) as nat) == if begins {
                snake_prefix(s, i as nat) + seq!['_', char_lower(s[i])]
            } else {
                snake_prefix(s, i as nat) + seq![char_lower(s[i])]
            }
        }),
        snake_prefix(s, 0).len() == 0,
{
    let before = snake_prefix(s, i as nat);
    let c = char_lower(s[i]);
    assert(before.push('_').push(c) =~= before + seq!['_', c]);
    assert(before.push(c) =~= before + seq![c]);
}

/// A path goes by its text, without a leading `./`.
pub proof fn paths_lose_a_leading_dot(s: Seq<char>)
    ensures
        plain_path("./"@ + s) == s,
        !(s.len() >= 2 && s[0] == '.' && s[1] == '/') ==> plain_path(s) == s,
{
    reveal_strlit("./");
    assert(("./"@ + s).skip(2) =~= s);
    assert("./"@.is_prefix_of("./"@ + s));
    if "./"@.is_prefix_of(s) {
        assert("./"@[0] == s[0] && "./"@[1] == s[1]);
    }
}

/// What is extracted from a text: a word with a slash and an extension, as a file. A text
/// that is one such word gives that file and no other.
pub proof fn extraction_finds_paths(
    text: &str,
    captures: &Vec<Vec<Option<String>>>,
    r: Vec<Entity>,
    stem: Seq<char>,
    ext: Seq<char>,
)
    requires
        captures@.len() == 6,
        call_ensures(extract_entities_from, (text, captures), r),
        !text@.contains('`'),
        runs(text@, CharClass::Visible).contains(stem.push('.') + ext),
        stem.contains('/'),
        byte_len(stem.push('.') + ext) >= 3,
        0 < ext.len(),
        byte_len(ext) <= 10,
        !ext.contains('.'),
        forall|i: int| 0 <= i < ext.len() ==> char_alphanumeric(#[trigger] ext[i]),
        ({
            let (a, z) = (stem[0], ext.last());
            &&& a != ',' && a != '.' && a != ';' && a != ':' && a != '(' && a != ')' && a != '"' && a
                != '\''
            &&& z != ',' && z != ';' && z != ':' && z != '(' && z != ')' && z != '"' && z != '\''
        }),
    ensures
        exists|k: int|
            0 <= k < r@.len() && (#[trigger] r@[k]).entity_type is File && str_lowercase(
                r@[k].source_text@,
            ) == str_lowercase(stem.push('.') + ext),
        text@ == stem.push('.') + ext && (forall|i: int|
            0 <= i < text@.len() ==> CharClass::Visible.holds(#[trigger] text@[i])) ==> forall|k: int|
            0 <= k < r@.len() && (#[trigger] r@[k]).entity_type is File ==> r@[k].name@ == text@,
{
    let caps = all_captures_view(captures@);
    let v = entities_view(r@);
    paths_are_found_as_files(text@, caps, stem, ext);
    let e = choose|e: EntityView| #[trigger]
        first_of_each(candidates(text@, caps)).contains(e) && e.entity_type is File
            && str_lowercase(e.source_text) == str_lowercase(stem.push('.') + ext);
    let k = choose|k: int| 0 <= k < v.len() && v[k] == e;
    assert(r@[k]@ == e);
    if text@ == stem.push('.') + ext && (forall|i: int|
        0 <= i < text@.len() ==> CharClass::Visible.holds(#[trigger] text@[i])) {
        a_path_alone_is_that_file(text@, caps, stem, ext);
        assert forall|k: int|
            0 <= k < r@.len() && (#[trigger] r@[k]).entity_type is File implies r@[k].name@
            == text@ by {
            assert(v[k] == r@[k]@);
            assert(v.contains(v[k]));
        }
    }
}

/// A symbol of one language does not stand in the way of one of the same name in another: the
/// two have different keys, so that both are kept.
pub proof fn languages_keep_their_symbols_apart(a: Seq<char>, b: Seq<char>, name: Seq<char>)
    requires
        a != b,
        2 <= byte_len(name) <= 200,
    ensures
        symbol_candidate(a, Some(name)) matches Some(x) && (symbol_candidate(b, Some(name))
            matches Some(y) && x.key != y.key),
{
    let x = symbol_candidate(a, Some(name))->0;
    let y = symbol_candidate(b, Some(name))->0;
    let p = "sym:"@;
    let t = str_lowercase(name);
    assert(x.key.len() == p.len() + a.len() + ":"@.len() + t.len());
    assert(y.key.len() == p.len() + b.len() + ":"@.len() + t.len());
    if x.key == y.key {
        assert(a =~= x.key.subrange(p.len() as int, (p.len() + a.len()) as int));
        assert(b =~= y.key.subrange(p.len() as int, (p.len() + b.len()) as int));
    }
}

/// The id of a symbol depends on its name, its language and its file: what is digested
/// differs where any one of the three does.
pub proof fn provisional_ids_depend_on_name_language_and_file(
    name: Seq<char>,
    other: Seq<char>,
    a: Seq<char>,
    b: Seq<char>,
)
    requires
        encode_utf8(a) != encode_utf8(b),
    ensures
        provisional_message(name, Some(other), Some(a)) != provisional_message(
            name,
            Some(other),
            Some(b),
        ),
        provisional_message(name, Some(a), Some(other)) != provisional_message(
            name,
            Some(b),
            Some(other),
        ),
        provisional_message(a, Some(name), Some(other)) != provisional_message(
            b,
            Some(name),
            Some(other),
        ),
{
    let x = encode_utf8(a);
    let y = encode_utf8(b);
    let n = encode_utf8(name);
    let o = encode_utf8(other);
    let front = n.push(124u8) + o.push(124u8);
    if front + x == front + y {
        assert(x =~= (front + x).skip(front.len() as int));
        assert(y =~= (front + y).skip(front.len() as int));
    }
    let p = n.push(124u8) + x.push(124u8) + o;
    let q = n.push(124u8) + y.push(124u8) + o;
    assert(p.len() == n.len() + x.len() + o.len() + 2);
    assert(q.len() == n.len() + y.len() + o.len() + 2);
    if p == q {
        let k = n.len() as int + 1;
        assert(x =~= p.subrange(k, k + x.len()));
        assert(y =~= q.subrange(k, k + y.len()));
    }
    let s = x.push(124u8) + n.push(124u8) + o;
    let t = y.push(124u8) + n.push(124u8) + o;
    assert(s.len() == n.len() + x.len() + o.len() + 2);
    assert(t.len() == n.len() + y.len() + o.len() + 2);
    if s == t {
        assert(x =~= s.take(x.len() as int));
        assert(y =~= t.take(y.len() as int));
    }
}

/// The id of a symbol is made from the digest of what it depends on, in forty digits.
pub proof fn provisional_ids_have_forty_digits(
    name: &str,
    lang: Option<&str>,
    file: Option<&str>,
    r: String,
)
    requires
        call_ensures(provisional_canonical_id, (name, lang, file), r),
        sha256_of(
            provisional_message(
                name@,
                match lang {
                    Some(l) => Some(l@),
                    None => None,
                },
                match file {
                    Some(f) => Some(f@),
                    None => None,
                },
            ),
        ).len() == 32,
    ensures
        "provisional:"@.is_prefix_of(r@),
        r@.len() == "provisional:"@.len() + 40,
{
}

/// The id of an entity is its name, unless it is a code symbol, whose id is made from its
/// name, its language and the file.
pub proof fn entities_are_kept_under_their_ids(
    e: &Entity,
    file: Option<&str>,
    r: String,
    lang: Seq<char>,
)
    requires
        call_ensures(entity_canonical_id, (e, file), r),
    ensures
        e@.entity_type is File || e@.entity_type is Code || e@.entity_type is Reference
            || e@.entity_type is Project ==> r@ == e.name@,
        e@.entity_type == TypeView::CodeSymbol(Some(lang)) && file is None ==> r@ == "provisional:"@
            + hex(sha256_of(provisional_message(e.name@, Some(lang), None)).take(20)),
        e@.entity_type == TypeView::CodeSymbol(Some(lang)) ==> (file matches Some(f) ==> r@
            == "provisional:"@ + hex(
            sha256_of(provisional_message(e.name@, Some(lang), Some(f@))).take(20),
        )),
{
}

} // verus!
