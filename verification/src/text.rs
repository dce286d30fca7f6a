//! Characters and strings: the few operations on text that the rest of the
//! library is stated over.
use vstd::prelude::*;

verus! {

/// Compares two string slices.
///
/// Calls `str`'s `==`, which holds exactly when both slices have the same
/// characters in the same order.
#[verifier::external_body]
pub(crate) fn str_eq(left: &str, right: &str) -> (same: bool)
    ensures
        same == (left@ == right@),
{
    left == right
}

/// Appends one character to a string.
///
/// Calls `String::push`, which appends the given `char` to the end.
#[verifier::external_body]
pub(crate) fn push_char(text: &mut String, c: char)
    ensures
        final(text)@ == old(text)@.push(c),
{
    text.push(c);
}

/// The characters of a string slice, in order.
pub fn chars_of(text: &str) -> (chars: Vec<char>)
    ensures
        chars@ == text@,
{
    let mut chars: Vec<char> = Vec::new();
    for c in it: text.chars()
        invariant
            it.seq() == text@,
            chars@ == text@.take(it.index() as int),
    {
        chars.push(c);
        assert(text@.take(it.index() + 1) =~= text@.take(it.index() as int).push(c));
    }
    assert(text@.take(text@.len() as int) =~= text@);
    chars
}

/// The string that holds the characters `chars[from..to]`.
pub fn string_of(chars: &[char], from: usize, to: usize) -> (text: String)
    requires
        from <= to <= chars@.len(),
    ensures
        text@ == chars@.subrange(from as int, to as int),
{
    let mut text = String::new();
    let mut i: usize = from;
    while i < to
        invariant
            from <= i <= to <= chars@.len(),
            text@ == chars@.subrange(from as int, i as int),
        decreases to - i,
    {
        push_char(&mut text, chars[i]);
        i += 1;
        assert(chars@.subrange(from as int, i as int) =~= chars@.subrange(
            from as int,
            i - 1,
        ).push(chars@[i - 1]));
    }
    text
}

/// Whether a character has the Unicode property `White_Space`.
pub open spec fn is_white_space(c: char) -> bool {
    let v = c as u32;
    ||| 0x9 <= v <= 0xD
    ||| v == 0x20
    ||| v == 0x85
    ||| v == 0xA0
    ||| v == 0x1680
    ||| 0x2000 <= v <= 0x200A
    ||| v == 0x2028
    ||| v == 0x2029
    ||| v == 0x202F
    ||| v == 0x205F
    ||| v == 0x3000
}

/// Tests the Unicode property `White_Space`.
pub fn white_space(c: char) -> (r: bool)
    ensures
        r == is_white_space(c),
{
    let v: u32 = c as u32;
    (0x9 <= v && v <= 0xD) || v == 0x20 || v == 0x85 || v == 0xA0 || v == 0x1680 || (0x2000 <= v
        && v <= 0x200A) || v == 0x2028 || v == 0x2029 || v == 0x202F || v == 0x205F || v == 0x3000
}

/// How many of the leading characters are white space.
pub open spec fn leading_space(s: Seq<char>) -> nat
    decreases s.len(),
{
    if s.len() > 0 && is_white_space(s[0]) {
        1 + leading_space(s.drop_first())
    } else {
        0
    }
}

/// `s` without its leading white space.
pub open spec fn trim_start(s: Seq<char>) -> Seq<char> {
    s.skip(leading_space(s) as int)
}

/// `s` without its trailing white space.
pub open spec fn trim_end(s: Seq<char>) -> Seq<char>
    decreases s.len(),
{
    if s.len() > 0 && is_white_space(s.last()) {
        trim_end(s.drop_last())
    } else {
        s
    }
}

/// `s` without leading and trailing white space.
pub open spec fn trimmed(s: Seq<char>) -> Seq<char> {
    trim_end(trim_start(s))
}

proof fn lemma_leading_space(s: Seq<char>, n: int)
    requires
        0 <= n <= s.len(),
        forall|k: int| 0 <= k < n ==> is_white_space(#[trigger] s[k]),
        n < s.len() ==> !is_white_space(s[n]),
    ensures
        leading_space(s) == n,
    decreases n,
{
    if n > 0 {
        let rest = s.drop_first();
        assert forall|k: int| 0 <= k < n - 1 implies is_white_space(#[trigger] rest[k]) by {
            assert(rest[k] == s[k + 1]);
        }
        if n < s.len() {
            assert(rest[n - 1] == s[n]);
        }
        lemma_leading_space(rest, n - 1);
    }
}

proof fn lemma_trim_end(s: Seq<char>, n: int)
    requires
        0 <= n <= s.len(),
        forall|k: int| n <= k < s.len() ==> is_white_space(#[trigger] s[k]),
        n > 0 ==> !is_white_space(s[n - 1]),
    ensures
        trim_end(s) == s.take(n),
    decreases s.len() - n,
{
    if n < s.len() {
        let rest = s.drop_last();
        assert(is_white_space(s[s.len() - 1]));
        assert forall|k: int| n <= k < rest.len() implies is_white_space(#[trigger] rest[k]) by {
            assert(rest[k] == s[k]);
        }
        lemma_trim_end(rest, n);
        assert(rest.take(n) =~= s.take(n));
    } else {
        assert(s.take(n) =~= s);
    }
}

/// The bounds `from..to` of `chars` without leading and trailing white space.
pub fn trim_bounds(chars: &[char]) -> (bounds: (usize, usize))
    ensures
        bounds.0 <= bounds.1 <= chars@.len(),
        chars@.subrange(bounds.0 as int, bounds.1 as int) == trimmed(chars@),
        bounds.0 == leading_space(chars@),
{
    let mut from: usize = 0;
    while from < chars.len() && white_space(chars[from])
        invariant
            0 <= from <= chars@.len(),
            forall|k: int| 0 <= k < from ==> is_white_space(#[trigger] chars@[k]),
        decreases chars@.len() - from,
    {
        from += 1;
    }
    let mut to: usize = chars.len();
    while to > from && white_space(chars[to - 1])
        invariant
            from <= to <= chars@.len(),
            forall|k: int| to <= k < chars@.len() ==> is_white_space(#[trigger] chars@[k]),
        decreases to,
    {
        to -= 1;
    }
    proof {
        lemma_leading_space(chars@, from as int);
        let rest = chars@.skip(from as int);
        assert forall|k: int| to - from <= k < rest.len() implies is_white_space(
            #[trigger] rest[k],
        ) by {
            assert(rest[k] == chars@[k + from]);
        }
        if to > from {
            assert(rest[to - from - 1] == chars@[to - 1]);
        }
        lemma_trim_end(rest, to - from);
        assert(rest.take(to - from) =~= chars@.subrange(from as int, to as int));
    }
    (from, to)
}

/// The lower-case form of an ASCII letter; any other character unchanged.
pub open spec fn char_lower(c: char) -> char {
    if 'A' <= c <= 'Z' {
        (c as u32 + 32) as char
    } else {
        c
    }
}

/// `s` with each ASCII letter in lower case.
pub open spec fn lower_chars(s: Seq<char>) -> Seq<char> {
    s.map_values(|c: char| char_lower(c))
}

/// Lowers one ASCII letter.
pub fn ascii_lower(c: char) -> (r: char)
    ensures
        r == char_lower(c),
{
    if 'A' <= c && c <= 'Z' {
        let low: u8 = c as u8 + 32;
        low as char
    } else {
        c
    }
}

/// The trimmed, lower-case characters by which a serialized label is matched.
pub fn normalize_label(value: &str) -> (label: String)
    ensures
        label@ == lower_chars(trimmed(value@)),
{
    let chars = chars_of(value);
    let (from, to) = trim_bounds(chars.as_slice());
    let ghost body = trimmed(value@);
    let mut label = String::new();
    let mut i: usize = from;
    while i < to
        invariant
            from <= i <= to <= chars@.len(),
            body == chars@.subrange(from as int, to as int),
            label@ == lower_chars(body.take(i - from)),
        decreases to - i,
    {
        push_char(&mut label, ascii_lower(chars[i]));
        i += 1;
        assert(lower_chars(body.take(i - from)) =~= lower_chars(body.take(i - from - 1)).push(
            char_lower(body[i - from - 1]),
        ));
    }
    assert(body.take(to - from) =~= body);
    label
}

/// A label that is already trimmed and in lower case is matched as it stands.
pub proof fn lemma_plain_label(s: Seq<char>)
    requires
        s.len() > 0,
        forall|k: int| 0 <= k < s.len() ==> #[trigger] s[k] == '_' || 'a' <= s[k] <= 'z',
    ensures
        lower_chars(trimmed(s)) == s,
{
    assert(s[0] == '_' || 'a' <= s[0] <= 'z');
    assert(s[s.len() - 1] == '_' || 'a' <= s[s.len() - 1] <= 'z');
    assert(leading_space(s) == 0);
    assert(s.skip(0) =~= s);
    assert(trim_end(s) == s);
    assert(lower_chars(s) =~= s);
}

/// The decimal digits of a number.
pub open spec fn decimal(n: nat) -> Seq<char>
    decreases n,
{
    if n < 10 {
        seq![digit(n)]
    } else {
        decimal(n / 10).push(digit(n % 10))
    }
}

/// The character of a number below ten.
pub open spec fn digit(n: nat) -> char {
    (48 + n) as char
}

/// Writes a number in decimal.
pub fn decimal_of(n: usize) -> (r: String)
    ensures
        r@ == decimal(n as nat),
{
    decimal_of_wide(n as u64)
}

/// Writes a wide number in decimal.
pub fn decimal_of_wide(n: u64) -> (r: String)
    ensures
        r@ == decimal(n as nat),
    decreases n,
{
    let last: u8 = 48 + (n % 10) as u8;
    let mut r = if n < 10 {
        String::new()
    } else {
        decimal_of_wide(n / 10)
    };
    let ghost head = r@;
    push_char(&mut r, last as char);
    proof {
        if n < 10 {
            assert(r@ =~= seq![digit(n as nat)]);
        } else {
            assert(r@ == head.push(digit((n % 10) as nat)));
        }
    }
    r
}

/// The parts one after the other, with `separator` between them.
pub open spec fn joined(parts: Seq<Seq<char>>, separator: Seq<char>) -> Seq<char>
    decreases parts.len(),
{
    if parts.len() == 0 {
        Seq::empty()
    } else if parts.len() == 1 {
        parts[0]
    } else {
        joined(parts.drop_last(), separator) + separator + parts.last()
    }
}

/// The views of a sequence of strings.
pub open spec fn views(parts: Seq<String>) -> Seq<Seq<char>> {
    parts.map_values(|part: String| part@)
}

/// Joins strings with a separator.
pub fn join(parts: &[String], separator: &str) -> (r: String)
    ensures
        r@ == joined(views(parts@), separator@),
{
    let mut r = String::new();
    let mut i: usize = 0;
    while i < parts.len()
        invariant
            i <= parts@.len(),
            r@ == joined(views(parts@).take(i as int), separator@),
        decreases parts@.len() - i,
    {
        let ghost before = views(parts@).take(i as int);
        if i > 0 {
            r.append(separator);
        }
        r.append(parts[i].as_str());
        i += 1;
        proof {
            let now = views(parts@).take(i as int);
            assert(now.drop_last() =~= before);
            assert(now.last() == parts@[i - 1]@);
            if i == 1 {
                assert(r@ =~= now[0]);
            }
        }
    }
    assert(views(parts@).take(parts@.len() as int) =~= views(parts@));
    r
}

/// A copy of a list of strings.
pub fn copy_strings(parts: &[String]) -> (r: Vec<String>)
    ensures
        views(r@) == views(parts@),
{
    let mut r: Vec<String> = Vec::new();
    let mut i: usize = 0;
    while i < parts.len()
        invariant
            i <= parts@.len(),
            r@.len() == i,
            forall|k: int| 0 <= k < i ==> (#[trigger] r@[k])@ == parts@[k]@,
        decreases parts@.len() - i,
    {
        r.push(parts[i].clone());
        i += 1;
    }
    assert(views(r@) =~= views(parts@));
    r
}

/// Tests whether a list of strings holds a string.
pub fn list_contains(list: &[String], item: &str) -> (r: bool)
    ensures
        r == views(list@).contains(item@),
{
    let mut i: usize = 0;
    while i < list.len()
        invariant
            i <= list@.len(),
            forall|k: int| 0 <= k < i ==> views(list@)[k] != item@,
        decreases list@.len() - i,
    {
        if str_eq(list[i].as_str(), item) {
            assert(views(list@)[i as int] == item@);
            return true;
        }
        i += 1;
    }
    false
}

/// Whether `s` begins with `prefix`.
pub open spec fn begins_with(s: Seq<char>, prefix: Seq<char>) -> bool {
    prefix.len() <= s.len() && s.take(prefix.len() as int) == prefix
}

/// Tests whether `text` begins with `prefix`.
pub fn starts_with(text: &[char], prefix: &[char]) -> (r: bool)
    ensures
        r == begins_with(text@, prefix@),
{
    if prefix.len() > text.len() {
        return false;
    }
    let mut i: usize = 0;
    while i < prefix.len()
        invariant
            i <= prefix@.len() <= text@.len(),
            forall|k: int| 0 <= k < i ==> text@[k] == prefix@[k],
        decreases prefix@.len() - i,
    {
        if text[i] != prefix[i] {
            assert(text@.take(prefix@.len() as int)[i as int] != prefix@[i as int]);
            return false;
        }
        i += 1;
    }
    assert(text@.take(prefix@.len() as int) =~= prefix@);
    true
}

/// The order of strings by their first different character; a string comes
/// before its extensions.
pub open spec fn name_less(a: Seq<char>, b: Seq<char>) -> bool
    decreases a.len(),
{
    if b.len() == 0 {
        false
    } else if a.len() == 0 {
        true
    } else if a[0] != b[0] {
        a[0] < b[0]
    } else {
        name_less(a.drop_first(), b.drop_first())
    }
}

/// Of two different strings one comes first, and only one.
pub proof fn lemma_name_order(a: Seq<char>, b: Seq<char>)
    ensures
        a != b ==> name_less(a, b) || name_less(b, a),
        name_less(a, b) ==> !name_less(b, a),
        a == b ==> !name_less(a, b),
    decreases a.len(),
{
    if a.len() > 0 && b.len() > 0 && a[0] == b[0] {
        lemma_name_order(a.drop_first(), b.drop_first());
        if a.drop_first() == b.drop_first() {
            assert(a =~= seq![a[0]] + a.drop_first());
            assert(b =~= seq![b[0]] + b.drop_first());
        }
    } else if a.len() == 0 && b.len() == 0 {
        assert(a =~= b);
    }
}

/// The order of strings is transitive.
pub proof fn lemma_name_transitive(a: Seq<char>, b: Seq<char>, c: Seq<char>)
    requires
        name_less(a, b),
        name_less(b, c),
    ensures
        name_less(a, c),
    decreases a.len(),
{
    if a.len() > 0 && b.len() > 0 && c.len() > 0 && a[0] == b[0] && b[0] == c[0] {
        lemma_name_transitive(a.drop_first(), b.drop_first(), c.drop_first());
    }
}

/// Tests whether one string comes before another.
pub fn comes_before(left: &str, right: &str) -> (r: bool)
    ensures
        r == name_less(left@, right@),
{
    let a = chars_of(left);
    let b = chars_of(right);
    let mut i: usize = 0;
    assert(a@.skip(0) =~= a@);
    assert(b@.skip(0) =~= b@);
    while i < a.len() && i < b.len()
        invariant
            a@ == left@,
            b@ == right@,
            i <= a@.len(),
            i <= b@.len(),
            name_less(a@, b@) == name_less(a@.skip(i as int), b@.skip(i as int)),
        decreases a@.len() - i,
    {
        let ghost x = a@.skip(i as int);
        let ghost y = b@.skip(i as int);
        if a[i] != b[i] {
            return a[i] < b[i];
        }
        proof {
            assert(x.drop_first() =~= a@.skip(i + 1));
            assert(y.drop_first() =~= b@.skip(i + 1));
        }
        i += 1;
    }
    i < b.len()
}

/// A list of different names in order, with one more.
pub open spec fn insert_name(names: Seq<Seq<char>>, name: Seq<char>) -> Seq<Seq<char>>
    decreases names.len(),
{
    if names.len() == 0 {
        seq![name]
    } else if names.last() == name {
        names
    } else if name_less(names.last(), name) {
        names.push(name)
    } else {
        insert_name(names.drop_last(), name).push(names.last())
    }
}

/// Puts a name into its place in an ordered list.
pub fn add_name(names: &mut Vec<String>, name: &str)
    ensures
        views(final(names)@) == insert_name(views(old(names)@), name@),
{
    let ghost all = views(names@);
    let mut pos: usize = names.len();
    let ghost n = all.len() as int;
    assert(all.take(n) =~= all);
    assert(all.skip(n) =~= Seq::empty());
    assert(insert_name(all, name@) + Seq::<Seq<char>>::empty() =~= insert_name(all, name@));
    while pos > 0
        invariant
            names@ == old(names)@,
            all == views(names@),
            pos <= names@.len(),
            insert_name(all, name@) == insert_name(all.take(pos as int), name@) + all.skip(
                pos as int,
            ),
        decreases pos,
    {
        let ghost head = all.take(pos as int);
        assert(head.last() == names@[pos - 1]@);
        if str_eq(names[pos - 1].as_str(), name) {
            assert(head + all.skip(pos as int) =~= all);
            return ;
        }
        if comes_before(names[pos - 1].as_str(), name) {
            names.insert(pos, name.to_owned());
            assert(views(names@) =~= head.push(name@) + all.skip(pos as int));
            return ;
        }
        proof {
            assert(head.drop_last() =~= all.take(pos - 1));
            assert(all.skip(pos - 1) =~= seq![head.last()] + all.skip(pos as int));
            assert(insert_name(head, name@) + all.skip(pos as int) =~= insert_name(
                all.take(pos - 1),
                name@,
            ) + all.skip(pos - 1));
        }
        pos -= 1;
    }
    names.insert(0, name.to_owned());
    proof {
        assert(all.take(0) =~= Seq::empty());
        assert(all.skip(0) =~= all);
        assert(views(names@) =~= seq![name@] + all);
    }
}

/// Whether `part` stands somewhere in `s`.
pub open spec fn has_part(s: Seq<char>, part: Seq<char>) -> bool {
    exists|i: int| 0 <= i <= s.len() && begins_with(#[trigger] s.skip(i), part)
}

/// Tests whether `part` stands somewhere in `text`.
pub fn contains_part(text: &str, part: &str) -> (r: bool)
    ensures
        r == has_part(text@, part@),
{
    let chars = chars_of(text);
    let wanted = chars_of(part);
    let mut i: usize = 0;
    while i <= chars.len()
        invariant
            i <= chars@.len() + 1,
            chars@ == text@,
            wanted@ == part@,
            forall|k: int| 0 <= k < i ==> !begins_with(#[trigger] text@.skip(k), part@),
        decreases chars@.len() + 1 - i,
    {
        let rest = vstd::slice::slice_subrange(chars.as_slice(), i, chars.len());
        assert(rest@ =~= text@.skip(i as int));
        if starts_with(rest, wanted.as_slice()) {
            return true;
        }
        if i == chars.len() {
            return false;
        }
        i += 1;
    }
    false
}

/// What `str::to_lowercase` makes of a string.
pub uninterp spec fn unicode_lower(s: Seq<char>) -> Seq<char>;

/// Whether every character is an ASCII one.
pub open spec fn all_ascii(s: Seq<char>) -> bool {
    forall|i: int| 0 <= i < s.len() ==> (#[trigger] s[i] as u32) < 128
}

/// `str::to_lowercase`. Of an ASCII string, the letters are put in lower case
/// and nothing else is changed.
#[verifier::external_body]
pub(crate) fn lowercase(text: &str) -> (r: String)
    ensures
        r@ == unicode_lower(text@),
        all_ascii(text@) ==> r@ == lower_chars(text@),
{
    text.to_lowercase()
}

/// `s` in lower case.
pub open spec fn lowered(s: Seq<char>) -> Seq<char> {
    if all_ascii(s) {
        lower_chars(s)
    } else {
        unicode_lower(s)
    }
}

proof fn lemma_lower_char(c: char)
    ensures
        is_white_space(char_lower(c)) == is_white_space(c),
        ((char_lower(c) as u32) < 128) == ((c as u32) < 128),
        char_lower(char_lower(c)) == char_lower(c),
{
}

proof fn lemma_lower_leading_space(s: Seq<char>)
    ensures
        leading_space(lower_chars(s)) == leading_space(s),
    decreases s.len(),
{
    if s.len() > 0 {
        lemma_lower_char(s[0]);
        lemma_lower_leading_space(s.drop_first());
        assert(lower_chars(s).drop_first() =~= lower_chars(s.drop_first()));
    }
}

proof fn lemma_lower_trim_end(s: Seq<char>)
    ensures
        trim_end(lower_chars(s)) == lower_chars(trim_end(s)),
    decreases s.len(),
{
    if s.len() > 0 {
        lemma_lower_char(s.last());
        lemma_lower_trim_end(s.drop_last());
        assert(lower_chars(s).drop_last() =~= lower_chars(s.drop_last()));
    }
}

/// How many of the leading characters are white space is a number of them.
pub proof fn lemma_leading_space_len(s: Seq<char>)
    ensures
        leading_space(s) <= s.len(),
    decreases s.len(),
{
    if s.len() > 0 {
        lemma_leading_space_len(s.drop_first());
    }
}

/// Lower case leaves white space as it is.
pub proof fn lemma_lower_trimmed(s: Seq<char>)
    ensures
        leading_space(lower_chars(s)) == leading_space(s),
        trim_start(lower_chars(s)) == lower_chars(trim_start(s)),
        trimmed(lower_chars(s)) == lower_chars(trimmed(s)),
{
    lemma_lower_leading_space(s);
    lemma_leading_space_len(s);
    assert(trim_start(lower_chars(s)) =~= lower_chars(trim_start(s)));
    lemma_lower_trim_end(trim_start(s));
}

/// Lower case stays as it is.
pub proof fn lemma_lower_twice(s: Seq<char>)
    ensures
        lower_chars(lower_chars(s)) == lower_chars(s),
{
    assert forall|k: int| 0 <= k < s.len() implies lower_chars(lower_chars(s))[k] == lower_chars(
        s,
    )[k] by {
        lemma_lower_char(s[k]);
    }
    assert(lower_chars(lower_chars(s)) =~= lower_chars(s));
}

/// Strings with the same lower case have it character by character.
pub proof fn lemma_same_lower(a: Seq<char>, b: Seq<char>)
    requires
        lower_chars(a) == lower_chars(b),
    ensures
        a.len() == b.len(),
        forall|k: int| 0 <= k < a.len() ==> char_lower(#[trigger] a[k]) == char_lower(b[k]),
{
    assert(lower_chars(a).len() == a.len());
    assert(lower_chars(b).len() == b.len());
    assert forall|k: int| 0 <= k < a.len() implies char_lower(#[trigger] a[k]) == char_lower(
        b[k],
    ) by {
        assert(lower_chars(a)[k] == char_lower(a[k]));
        assert(lower_chars(b)[k] == char_lower(b[k]));
    }
}

/// Lower case makes no character an ASCII one, nor another of one.
pub proof fn lemma_lower_ascii(a: Seq<char>, b: Seq<char>)
    requires
        lower_chars(a) == lower_chars(b),
        all_ascii(a),
    ensures
        all_ascii(b),
{
    lemma_same_lower(a, b);
    assert forall|k: int| 0 <= k < b.len() implies (#[trigger] b[k] as u32) < 128 by {
        lemma_lower_char(a[k]);
        lemma_lower_char(b[k]);
        assert(char_lower(a[k]) == char_lower(b[k]));
    }
}

proof fn lemma_trim_end_part(s: Seq<char>)
    ensures
        trim_end(s).len() <= s.len(),
        trim_end(s) == s.take(trim_end(s).len() as int),
        trim_end(s).len() > 0 ==> !is_white_space(trim_end(s).last()),
    decreases s.len(),
{
    if s.len() > 0 && is_white_space(s.last()) {
        let rest = s.drop_last();
        lemma_trim_end_part(rest);
        assert(rest.take(trim_end(rest).len() as int) =~= s.take(trim_end(rest).len() as int));
    } else {
        assert(s.take(s.len() as int) =~= s);
    }
}

proof fn lemma_trim_start_head(s: Seq<char>)
    ensures
        trim_start(s).len() > 0 ==> !is_white_space(trim_start(s)[0]),
    decreases s.len(),
{
    lemma_leading_space_len(s);
    if s.len() > 0 && is_white_space(s[0]) {
        lemma_trim_start_head(s.drop_first());
        lemma_leading_space_len(s.drop_first());
        assert(trim_start(s) =~= trim_start(s.drop_first()));
    } else {
        assert(trim_start(s) =~= s);
    }
}

/// Trimming takes a part of a string that has nothing left to trim.
pub proof fn lemma_trimmed_twice(s: Seq<char>)
    ensures
        trimmed(trimmed(s)) == trimmed(s),
        all_ascii(s) ==> all_ascii(trimmed(s)),
{
    let start = trim_start(s);
    let end = trim_end(start);
    lemma_leading_space_len(s);
    lemma_trim_start_head(s);
    lemma_trim_end_part(start);
    if end.len() > 0 {
        assert(end[0] == start[0]);
    }
    assert(trim_start(end) =~= end);
    assert(trim_end(end) == end);
    if all_ascii(s) {
        let from = leading_space(s) as int;
        assert forall|k: int| 0 <= k < end.len() implies (#[trigger] end[k] as u32) < 128 by {
            assert(end[k] == start[k]);
            assert(start[k] == s[from + k]);
        }
    }
}

/// Trimming takes away all white space on either side, and nothing within.
pub proof fn lemma_trimmed_is_the_middle(s: Seq<char>, from: int, to: int)
    requires
        0 <= from < to <= s.len(),
        forall|k: int| 0 <= k < from ==> is_white_space(#[trigger] s[k]),
        forall|k: int| to <= k < s.len() ==> is_white_space(#[trigger] s[k]),
        !is_white_space(s[from]),
        !is_white_space(s[to - 1]),
    ensures
        trimmed(s) == s.subrange(from, to),
        trim_start(s) == s.skip(from),
{
    lemma_leading_space(s, from);
    let rest = s.skip(from);
    assert forall|k: int| to - from <= k < rest.len() implies is_white_space(
        #[trigger] rest[k],
    ) by {
        assert(rest[k] == s[k + from]);
    }
    assert(rest[to - from - 1] == s[to - 1]);
    lemma_trim_end(rest, to - from);
    assert(rest.take(to - from) =~= s.subrange(from, to));
}

/// Blanks, tabs and line ends are white space; visible ASCII characters are
/// not.
pub proof fn lemma_visible_characters(c: char)
    ensures
        c == ' ' || c == '\t' || c == '\n' || c == '\r' ==> is_white_space(c),
        '!' <= c && c <= '~' ==> !is_white_space(c),
{
}

/// Nothing is left of white space alone.
pub proof fn lemma_space_is_trimmed_away(s: Seq<char>)
    requires
        forall|k: int| 0 <= k < s.len() ==> is_white_space(#[trigger] s[k]),
    ensures
        trimmed(s).len() == 0,
{
    lemma_leading_space(s, s.len() as int);
    assert(s.skip(s.len() as int) =~= Seq::empty());
}

/// One more or less of leading white space does not matter.
pub proof fn lemma_leading_blank(s: Seq<char>)
    ensures
        trim_start(seq![' '] + s) == trim_start(s),
        trimmed(seq![' '] + s) == trimmed(s),
{
    let t = seq![' '] + s;
    assert(t.drop_first() =~= s);
    lemma_leading_space_len(s);
    assert(trim_start(t) =~= trim_start(s));
}

} // verus!
