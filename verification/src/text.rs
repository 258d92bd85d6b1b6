//! Text primitives shared by the rest of the library: whitespace, trimming,
//! splitting and joining, letter case, and number rendering. Every function is
//! stated over the characters of its arguments (`Seq<char>`).

use vstd::prelude::*;
use vstd::string::*;

verus! {

// ---------------------------------------------------------------------------
// Specifications
// ---------------------------------------------------------------------------

/// The characters of each string of a list.
pub open spec fn texts(v: Seq<String>) -> Seq<Seq<char>> {
    Seq::new(v.len(), |i: int| v[i]@)
}

/// The characters of an optional string.
pub open spec fn opt_text(s: Option<String>) -> Option<Seq<char>> {
    match s {
        Some(s) => Some(s@),
        None => None,
    }
}

/// The texts of an optional list.
pub open spec fn opt_texts(v: Option<Vec<String>>) -> Option<Seq<Seq<char>>> {
    match v {
        Some(v) => Some(texts(v@)),
        None => None,
    }
}

/// The characters of an optional text.
pub open spec fn str_text(s: Option<&str>) -> Option<Seq<char>> {
    match s {
        Some(s) => Some(s@),
        None => None,
    }
}

/// The Unicode `White_Space` property.
pub open spec fn is_space(c: char) -> bool {
    ||| 0x9 <= c as u32 <= 0xd
    ||| c as u32 == 0x20
    ||| c as u32 == 0x85
    ||| c as u32 == 0xa0
    ||| c as u32 == 0x1680
    ||| 0x2000 <= c as u32 <= 0x200a
    ||| c as u32 == 0x2028
    ||| c as u32 == 0x2029
    ||| c as u32 == 0x202f
    ||| c as u32 == 0x205f
    ||| c as u32 == 0x3000
}

/// `s` without its leading whitespace.
pub open spec fn trim_start(s: Seq<char>) -> Seq<char>
    decreases s.len(),
{
    if s.len() > 0 && is_space(s[0]) {
        trim_start(s.skip(1))
    } else {
        s
    }
}

/// `s` without its trailing whitespace.
pub open spec fn trim_end(s: Seq<char>) -> Seq<char>
    decreases s.len(),
{
    if s.len() > 0 && is_space(s.last()) {
        trim_end(s.drop_last())
    } else {
        s
    }
}

/// `s` without leading and trailing whitespace.
pub open spec fn trimmed(s: Seq<char>) -> Seq<char> {
    trim_end(trim_start(s))
}

/// The pieces of `s` between the characters of `seps`. There is always one
/// more piece than there are separators, so the result is never empty.
pub open spec fn split(s: Seq<char>, seps: Seq<char>) -> Seq<Seq<char>>
    decreases s.len(),
{
    if s.len() == 0 {
        seq![Seq::<char>::empty()]
    } else {
        let before = split(s.drop_last(), seps);
        if seps.contains(s.last()) {
            before.push(Seq::<char>::empty())
        } else {
            before.drop_last().push(before.last().push(s.last()))
        }
    }
}

/// The parts one after the other, with `sep` between neighbours.
pub open spec fn join(parts: Seq<Seq<char>>, sep: Seq<char>) -> Seq<char>
    decreases parts.len(),
{
    if parts.len() == 0 {
        Seq::<char>::empty()
    } else if parts.len() == 1 {
        parts[0]
    } else {
        join(parts.drop_last(), sep) + sep + parts.last()
    }
}

/// One character with `A`..`Z` lowered and every other character kept.
pub open spec fn ascii_lower_char(c: char) -> char {
    if 'A' <= c <= 'Z' {
        (c as u32 + 32) as char
    } else {
        c
    }
}

/// `s` with `A`..`Z` lowered and every other character kept.
pub open spec fn ascii_lower(s: Seq<char>) -> Seq<char> {
    Seq::new(s.len(), |i: int| ascii_lower_char(s[i]))
}

/// Whether every character of `s` is ASCII.
pub open spec fn all_ascii(s: Seq<char>) -> bool {
    forall|i: int| 0 <= i < s.len() ==> #[trigger] (s[i] as u32) < 128
}

/// What `str::to_lowercase` makes of a text that is not all ASCII.
pub uninterp spec fn unicode_lowercase(s: Seq<char>) -> Seq<char>;

/// `s` in lower case.
pub open spec fn lowercase(s: Seq<char>) -> Seq<char> {
    if all_ascii(s) {
        ascii_lower(s)
    } else {
        unicode_lowercase(s)
    }
}

/// The digit of value `d` in base sixteen (and, below ten, in base ten).
pub open spec fn digit(d: int) -> char {
    if d < 10 {
        (48 + d) as char
    } else {
        (87 + d) as char
    }
}

/// `n` in base ten, without leading zeros.
pub open spec fn decimal(n: nat) -> Seq<char>
    decreases n,
{
    if n < 10 {
        seq![digit(n as int)]
    } else {
        decimal(n / 10).push(digit((n % 10) as int))
    }
}

/// `s` with enough zeros in front to be at least `width` long.
pub open spec fn zero_padded(s: Seq<char>, width: nat) -> Seq<char> {
    if s.len() >= width {
        s
    } else {
        Seq::new((width - s.len()) as nat, |i: int| '0') + s
    }
}

/// The signed number `n` in base ten, at least `width` characters wide: the
/// zeros stand between the sign and the digits.
pub open spec fn signed_padded(n: int, width: nat) -> Seq<char> {
    if n >= 0 {
        zero_padded(decimal(n as nat), width)
    } else {
        seq!['-'] + zero_padded(decimal((-n) as nat), (width - 1) as nat)
    }
}

/// The low `count` base-sixteen digits of `n`, most significant first.
pub open spec fn hex_digits(n: nat, count: nat) -> Seq<char>
    decreases count,
{
    if count == 0 {
        Seq::<char>::empty()
    } else {
        hex_digits(n / 16, (count - 1) as nat).push(digit((n % 16) as int))
    }
}

/// Whether `s` consists of lower-case base-sixteen digits.
pub open spec fn is_hex(s: Seq<char>) -> bool {
    forall|i: int|
        0 <= i < s.len() ==> '0' <= #[trigger] s[i] <= '9' || 'a' <= s[i] <= 'f'
}

/// Two base-sixteen digits for each byte.
pub open spec fn hex_of_bytes(b: Seq<u8>) -> Seq<char>
    decreases b.len(),
{
    if b.len() == 0 {
        Seq::<char>::empty()
    } else {
        hex_of_bytes(b.drop_last()) + hex_digits(b.last() as nat, 2)
    }
}

/// Whether `s` begins with `prefix`.
pub open spec fn begins_with(s: Seq<char>, prefix: Seq<char>) -> bool {
    prefix.len() <= s.len() && s.take(prefix.len() as int) == prefix
}

/// Whether `a` stands at or before `b` in dictionary order of code points.
pub open spec fn text_le(a: Seq<char>, b: Seq<char>) -> bool
    decreases a.len(),
{
    if a.len() == 0 {
        true
    } else if b.len() == 0 {
        false
    } else if a[0] == b[0] {
        text_le(a.skip(1), b.skip(1))
    } else {
        a[0] < b[0]
    }
}

// ---------------------------------------------------------------------------
// Trusted items of the standard library
// ---------------------------------------------------------------------------

/// `String::push` appends one character to the end of the string.
pub assume_specification[ String::push ](s: &mut String, c: char)
    ensures
        final(s)@ == old(s)@.push(c),
;

/// `str::to_lowercase`: the Unicode lower-case equivalent of the text. An ASCII
/// text has its letters `A`..`Z` lowered one by one and is otherwise unchanged;
/// what becomes of any other text is named `unicode_lowercase`.
#[verifier::external_body]
pub(crate) fn to_lower(s: &str) -> (r: String)
    ensures
        all_ascii(s@) ==> r@ == ascii_lower(s@),
        !all_ascii(s@) ==> r@ == unicode_lowercase(s@),
{
    s.to_lowercase()
}

// ---------------------------------------------------------------------------
// Characters and strings
// ---------------------------------------------------------------------------

/// The characters of `s`, in order.
pub fn to_chars(s: &str) -> (r: Vec<char>)
    ensures
        r@ == s@,
{
    let mut r: Vec<char> = Vec::new();
    for c in it: s.chars()
        invariant
            it.seq() == s@,
            r@ == s@.take(it.index()),
    {
        assert(s@.take(it.index() + 1) == s@.take(it.index()).push(s@[it.index()]));
        r.push(c);
    }
    assert(s@.take(s@.len() as int) == s@);
    r
}

/// The string made of `chars[from..to]`.
pub fn from_chars(chars: &Vec<char>, from: usize, to: usize) -> (r: String)
    requires
        from <= to <= chars@.len(),
    ensures
        r@ == chars@.subrange(from as int, to as int),
{
    let mut r = String::new();
    let mut i: usize = from;
    while i < to
        invariant
            from <= i <= to <= chars@.len(),
            r@ == chars@.subrange(from as int, i as int),
        decreases to - i,
    {
        r.push(chars[i]);
        i += 1;
        assert(chars@.subrange(from as int, i as int) == chars@.subrange(
            from as int,
            i - 1,
        ).push(chars@[i - 1]));
    }
    r
}

/// Whether two texts hold the same characters.
pub fn same_text(a: &str, b: &str) -> (r: bool)
    ensures
        r == (a@ == b@),
{
    let x = to_chars(a);
    let y = to_chars(b);
    if x.len() != y.len() {
        return false;
    }
    let mut i: usize = 0;
    while i < x.len()
        invariant
            x@ == a@,
            y@ == b@,
            x@.len() == y@.len(),
            i <= x@.len(),
            forall|j: int| 0 <= j < i ==> x@[j] == y@[j],
        decreases x@.len() - i,
    {
        if x[i] != y[i] {
            return false;
        }
        i += 1;
    }
    assert(x@ == y@);
    true
}

/// Whether `s` begins with `prefix`.
pub fn starts_with(s: &str, prefix: &str) -> (r: bool)
    ensures
        r == begins_with(s@, prefix@),
{
    let x = to_chars(s);
    let y = to_chars(prefix);
    if y.len() > x.len() {
        return false;
    }
    let mut i: usize = 0;
    while i < y.len()
        invariant
            x@ == s@,
            y@ == prefix@,
            y@.len() <= x@.len(),
            i <= y@.len(),
            forall|j: int| 0 <= j < i ==> x@[j] == y@[j],
        decreases y@.len() - i,
    {
        if x[i] != y[i] {
            assert(s@.take(prefix@.len() as int)[i as int] != prefix@[i as int]);
            return false;
        }
        i += 1;
    }
    assert(s@.take(prefix@.len() as int) == prefix@);
    true
}

/// A list with the same texts.
pub fn copy_texts(list: &Vec<String>) -> (r: Vec<String>)
    ensures
        texts(r@) == texts(list@),
{
    let mut r: Vec<String> = Vec::new();
    let mut i: usize = 0;
    assert(texts(r@) == texts(list@).take(0));
    while i < list.len()
        invariant
            i <= list@.len(),
            texts(r@) == texts(list@).take(i as int),
        decreases list@.len() - i,
    {
        let ghost before = texts(r@);
        r.push(list[i].clone());
        assert(texts(r@) == before.push(list@[i as int]@));
        assert(texts(list@).take(i + 1) == before.push(list@[i as int]@));
        i += 1;
    }
    assert(texts(list@).take(list@.len() as int) == texts(list@));
    r
}

/// Whether `c` has the Unicode `White_Space` property.
pub fn is_whitespace(c: char) -> (r: bool)
    ensures
        r == is_space(c),
{
    let u = c as u32;
    (0x9 <= u && u <= 0xd) || u == 0x20 || u == 0x85 || u == 0xa0 || u == 0x1680 || (0x2000 <= u
        && u <= 0x200a) || u == 0x2028 || u == 0x2029 || u == 0x202f || u == 0x205f || u == 0x3000
}

/// `s` without leading and trailing whitespace.
pub fn trim(s: &str) -> (r: String)
    ensures
        r@ == trimmed(s@),
{
    let chars = to_chars(s);
    let mut from: usize = 0;
    assert(s@.skip(0) == s@);
    while from < chars.len() && is_whitespace(chars[from])
        invariant
            chars@ == s@,
            from <= chars@.len(),
            trim_start(s@) == trim_start(s@.skip(from as int)),
        decreases chars@.len() - from,
    {
        assert(s@.skip(from as int).skip(1) == s@.skip(from + 1));
        from += 1;
    }
    assert(trim_start(s@) == s@.skip(from as int));
    let mut to: usize = chars.len();
    assert(s@.skip(from as int) == s@.subrange(from as int, to as int));
    while from < to && is_whitespace(chars[to - 1])
        invariant
            chars@ == s@,
            from <= to <= chars@.len(),
            trim_end(trim_start(s@)) == trim_end(s@.subrange(from as int, to as int)),
        decreases to - from,
    {
        assert(s@.subrange(from as int, to as int).drop_last() == s@.subrange(
            from as int,
            to - 1,
        ));
        to -= 1;
    }
    from_chars(&chars, from, to)
}

/// The pieces of `s` between the characters of `seps`.
pub fn split_text(s: &str, seps: &Vec<char>) -> (r: Vec<String>)
    ensures
        texts(r@) == split(s@, seps@),
{
    let mut done: Vec<String> = Vec::new();
    let mut piece = String::new();
    assert(split(Seq::<char>::empty(), seps@) == seq![Seq::<char>::empty()]);
    assert(s@.take(0) == Seq::<char>::empty());
    assert(texts(done@).push(piece@) == seq![Seq::<char>::empty()]);
    for c in it: s.chars()
        invariant
            it.seq() == s@,
            texts(done@).push(piece@) == split(s@.take(it.index()), seps@),
    {
        let ghost so_far = s@.take(it.index());
        let ghost before = texts(done@).push(piece@);
        let ghost next = s@.take(it.index() + 1);
        assert(next.drop_last() == so_far);
        assert(next.last() == c);
        if holds_char(seps, c) {
            let full = piece;
            piece = String::new();
            done.push(full);
            assert(texts(done@) == before);
        } else {
            piece.push(c);
            assert(before.drop_last() == texts(done@));
        }
        assert(texts(done@).push(piece@) == split(next, seps@));
    }
    assert(s@.take(s@.len() as int) == s@);
    let ghost before = texts(done@);
    let ghost last = piece@;
    done.push(piece);
    assert(texts(done@) == before.push(last));
    done
}

/// Whether the list holds the character `c`.
pub fn holds_char(list: &Vec<char>, c: char) -> (r: bool)
    ensures
        r == list@.contains(c),
{
    let mut i: usize = 0;
    while i < list.len()
        invariant
            i <= list@.len(),
            forall|j: int| 0 <= j < i ==> list@[j] != c,
        decreases list@.len() - i,
    {
        if list[i] == c {
            return true;
        }
        i += 1;
    }
    false
}

/// The parts one after the other, with `sep` between neighbours.
pub fn join_text(parts: &Vec<String>, sep: &str) -> (r: String)
    ensures
        r@ == join(texts(parts@), sep@),
{
    let mut r = String::new();
    let mut i: usize = 0;
    assert(texts(parts@).take(0) == Seq::<Seq<char>>::empty());
    while i < parts.len()
        invariant
            i <= parts@.len(),
            r@ == join(texts(parts@).take(i as int), sep@),
        decreases parts@.len() - i,
    {
        let ghost next = texts(parts@).take(i + 1);
        assert(next.drop_last() == texts(parts@).take(i as int));
        assert(next.last() == parts@[i as int]@);
        if i > 0 {
            r.append(sep);
        }
        r.append(parts[i].as_str());
        if i == 0 {
            assert(r@ == next[0]);
        }
        i += 1;
    }
    assert(texts(parts@).take(parts@.len() as int) == texts(parts@));
    r
}

/// `s` with `A`..`Z` lowered and every other character kept.
pub fn to_ascii_lower(s: &str) -> (r: String)
    ensures
        r@ == ascii_lower(s@),
{
    let mut r = String::new();
    for c in it: s.chars()
        invariant
            it.seq() == s@,
            r@ == ascii_lower(s@.take(it.index())),
    {
        let ghost so_far = s@.take(it.index());
        let low: char = if 'A' <= c && c <= 'Z' {
            (c as u8 + 32) as char
        } else {
            c
        };
        assert(s@.take(it.index() + 1) == so_far.push(c));
        r.push(low);
        assert(r@ == ascii_lower(s@.take(it.index() + 1)));
    }
    assert(s@.take(s@.len() as int) == s@);
    r
}

// ---------------------------------------------------------------------------
// Numbers
// ---------------------------------------------------------------------------

/// The digit of value `d`.
pub fn digit_char(d: u8) -> (c: char)
    requires
        d < 16,
    ensures
        c == digit(d as int),
{
    if d < 10 {
        (48u8 + d) as char
    } else {
        (87u8 + d) as char
    }
}

/// `n` in base ten, without leading zeros.
pub fn decimal_text(n: u64) -> (r: String)
    ensures
        r@ == decimal(n as nat),
    decreases n,
{
    if n < 10 {
        let mut r = String::new();
        r.push(digit_char(n as u8));
        assert(r@ == seq![digit(n as int)]);
        r
    } else {
        let mut r = decimal_text(n / 10);
        r.push(digit_char((n % 10) as u8));
        r
    }
}

/// `n` in base ten with zeros in front up to `width` characters.
pub fn padded_text(n: u64, width: usize) -> (r: String)
    ensures
        r@ == zero_padded(decimal(n as nat), width as nat),
{
    let digits = to_chars(decimal_text(n).as_str());
    let mut r = String::new();
    let mut i: usize = digits.len();
    while i < width
        invariant
            digits@.len() <= i,
            i <= width || i == digits@.len(),
            r@ == Seq::new((i - digits@.len()) as nat, |k: int| '0'),
        decreases width - i,
    {
        r.push('0');
        i += 1;
        assert(r@ == Seq::new((i - digits@.len()) as nat, |k: int| '0'));
    }
    let ghost zeros = r@;
    r.append(from_chars(&digits, 0, digits.len()).as_str());
    assert(digits@.subrange(0, digits@.len() as int) == digits@);
    assert(r@ == zeros + digits@);
    assert(r@ == zero_padded(decimal(n as nat), width as nat));
    r
}

/// The signed number `n` in base ten, at least `width` characters wide.
pub fn signed_padded_text(n: i32, width: usize) -> (r: String)
    requires
        width > 0,
    ensures
        r@ == signed_padded(n as int, width as nat),
{
    if n >= 0 {
        padded_text(n as u64, width)
    } else {
        let mut r = String::new();
        r.push('-');
        let m: i64 = -(n as i64);
        r.append(padded_text(m as u64, width - 1).as_str());
        assert(r@ == seq!['-'] + zero_padded(decimal((-n) as nat), (width - 1) as nat));
        r
    }
}

/// The low `count` base-sixteen digits of `n`, most significant first.
pub fn hex_text(n: u64, count: usize) -> (r: String)
    ensures
        r@ == hex_digits(n as nat, count as nat),
    decreases count,
{
    if count == 0 {
        String::new()
    } else {
        let mut r = hex_text(n / 16, count - 1);
        r.push(digit_char((n % 16) as u8));
        r
    }
}

/// Two base-sixteen digits for each byte.
pub fn hex_bytes_text(bytes: &Vec<u8>) -> (r: String)
    ensures
        r@ == hex_of_bytes(bytes@),
{
    let mut r = String::new();
    let mut i: usize = 0;
    assert(bytes@.take(0) == Seq::<u8>::empty());
    while i < bytes.len()
        invariant
            i <= bytes@.len(),
            r@ == hex_of_bytes(bytes@.take(i as int)),
        decreases bytes@.len() - i,
    {
        assert(bytes@.take(i + 1).drop_last() == bytes@.take(i as int));
        r.append(hex_text(bytes[i] as u64, 2).as_str());
        i += 1;
    }
    assert(bytes@.take(bytes@.len() as int) == bytes@);
    r
}

// ---------------------------------------------------------------------------
// Laws
// ---------------------------------------------------------------------------

/// A split always has at least one piece.
pub proof fn split_is_nonempty(s: Seq<char>, seps: Seq<char>)
    ensures
        split(s, seps).len() > 0,
    decreases s.len(),
{
    if s.len() > 0 {
        split_is_nonempty(s.drop_last(), seps);
    }
}

/// No piece of a split holds a separator.
pub proof fn split_pieces_hold_no_separator(s: Seq<char>, seps: Seq<char>)
    ensures
        forall|i: int, k: int|
            0 <= i < split(s, seps).len() && 0 <= k < split(s, seps)[i].len() ==> !seps.contains(
                #[trigger] split(s, seps)[i][k],
            ),
    decreases s.len(),
{
    if s.len() > 0 {
        split_pieces_hold_no_separator(s.drop_last(), seps);
        split_is_nonempty(s.drop_last(), seps);
    }
}

/// Text without a separator extends the last piece of a split.
proof fn lemma_split_extend(s: Seq<char>, p: Seq<char>, seps: Seq<char>)
    requires
        forall|k: int| 0 <= k < p.len() ==> !seps.contains(#[trigger] p[k]),
    ensures
        split(s + p, seps) == split(s, seps).drop_last().push(split(s, seps).last() + p),
    decreases p.len(),
{
    split_is_nonempty(s, seps);
    if p.len() == 0 {
        assert(s + p == s);
        assert(split(s, seps).last() + p == split(s, seps).last());
        assert(split(s, seps) == split(s, seps).drop_last().push(split(s, seps).last()));
    } else {
        let q = p.drop_last();
        lemma_split_extend(s, q, seps);
        assert((s + p).drop_last() == s + q);
        assert((s + p).last() == p.last());
        assert(!seps.contains(p[p.len() - 1]));
        let before = split(s + q, seps);
        assert(before.drop_last() == split(s, seps).drop_last());
        assert((split(s, seps).last() + q).push(p.last()) == split(s, seps).last() + p);
    }
}

/// A separator between two texts splits them apart.
pub proof fn split_at_separator(a: Seq<char>, b: Seq<char>, sep: char)
    ensures
        split(a + seq![sep] + b, seq![sep]) == split(a, seq![sep]) + split(b, seq![sep]),
    decreases b.len(),
{
    let seps = seq![sep];
    let head = a + seps;
    if b.len() == 0 {
        assert(head + b == head);
        assert(head.drop_last() == a);
        assert(seps.contains(head.last())) by {
            assert(seps[0] == sep);
        }
        assert(split(b, seps) == seq![Seq::<char>::empty()]);
        assert(split(a, seps).push(Seq::<char>::empty()) == split(a, seps) + split(b, seps));
    } else {
        let c = b.drop_last();
        split_at_separator(a, c, sep);
        split_is_nonempty(c, seps);
        assert((head + b).drop_last() == head + c);
        assert((head + b).last() == b.last());
        let before = split(a, seps) + split(c, seps);
        assert(before.drop_last() == split(a, seps) + split(c, seps).drop_last());
        assert(before.last() == split(c, seps).last());
        if seps.contains(b.last()) {
            assert(split(head + b, seps) == split(a, seps) + split(b, seps));
        } else {
            assert(split(head + b, seps) == split(a, seps) + split(b, seps));
        }
    }
}

/// Joining parts that hold no separator and splitting the result gives the
/// parts back.
pub proof fn split_undoes_join(parts: Seq<Seq<char>>, sep: char)
    requires
        parts.len() > 0,
        forall|i: int, k: int|
            0 <= i < parts.len() && 0 <= k < parts[i].len() ==> #[trigger] parts[i][k] != sep,
    ensures
        split(join(parts, seq![sep]), seq![sep]) == parts,
    decreases parts.len(),
{
    let seps = seq![sep];
    let last = parts.last();
    assert forall|k: int| 0 <= k < last.len() implies !seps.contains(#[trigger] last[k]) by {
        assert(parts[parts.len() - 1][k] != sep);
    }
    if parts.len() == 1 {
        let e = Seq::<char>::empty();
        lemma_split_extend(e, last, seps);
        assert(e + last == last);
        assert(split(e, seps) == seq![e]);
        assert(split(last, seps) == parts);
    } else {
        let front = parts.drop_last();
        assert forall|i: int, k: int|
            0 <= i < front.len() && 0 <= k < front[i].len() implies #[trigger] front[i][k]
            != sep by {
            assert(parts[i][k] != sep);
        }
        split_undoes_join(front, sep);
        let head = join(front, seps) + seps;
        assert(head.drop_last() == join(front, seps));
        assert(head.last() == sep);
        assert(seps.contains(sep)) by {
            assert(seps[0] == sep);
        }
        assert(split(head, seps) == front.push(Seq::<char>::empty()));
        lemma_split_extend(head, last, seps);
        assert(Seq::<char>::empty() + last == last);
        assert(split(head, seps).drop_last() == front);
        assert(front.push(last) == parts);
    }
}

/// Sixteen to the power `count`.
pub open spec fn pow16(count: nat) -> nat
    decreases count,
{
    if count == 0 {
        1
    } else {
        16 * pow16((count - 1) as nat)
    }
}

proof fn lemma_hex_injective(a: nat, b: nat, count: nat)
    requires
        hex_digits(a, count) == hex_digits(b, count),
        a < pow16(count),
        b < pow16(count),
    ensures
        a == b,
    decreases count,
{
    if count > 0 {
        let x = hex_digits(a / 16, (count - 1) as nat);
        let y = hex_digits(b / 16, (count - 1) as nat);
        let dx = digit((a % 16) as int);
        let dy = digit((b % 16) as int);
        assert(x.push(dx) == y.push(dy));
        assert(x.push(dx).last() == dx);
        assert(y.push(dy).last() == dy);
        assert(x.push(dx).drop_last() == x);
        assert(y.push(dy).drop_last() == y);
        lemma_hex_injective(a / 16, b / 16, (count - 1) as nat);
        assert(a % 16 == b % 16);
    }
}

/// Sixteen base-sixteen digits tell any two 64-bit numbers apart.
pub proof fn hex_of_u64_is_injective(a: u64, b: u64)
    requires
        hex_digits(a as nat, 16) == hex_digits(b as nat, 16),
    ensures
        a == b,
{
    reveal_with_fuel(pow16, 17);
    lemma_hex_injective(a as nat, b as nat, 16);
}

/// There are as many digits as asked for, all of them lower-case.
pub proof fn hex_digits_shape(n: nat, count: nat)
    ensures
        hex_digits(n, count).len() == count,
        is_hex(hex_digits(n, count)),
    decreases count,
{
    if count > 0 {
        hex_digits_shape(n / 16, (count - 1) as nat);
    }
}

/// There are two digits for each byte, all of them lower-case.
pub proof fn hex_of_bytes_shape(b: Seq<u8>)
    ensures
        hex_of_bytes(b).len() == 2 * b.len(),
        is_hex(hex_of_bytes(b)),
    decreases b.len(),
{
    if b.len() > 0 {
        hex_of_bytes_shape(b.drop_last());
        hex_digits_shape(b.last() as nat, 2);
    }
}

/// Two base-sixteen digits for each byte tell any two byte sequences apart.
pub proof fn hex_of_bytes_is_injective(a: Seq<u8>, b: Seq<u8>)
    requires
        hex_of_bytes(a) == hex_of_bytes(b),
    ensures
        a == b,
    decreases a.len(),
{
    hex_of_bytes_shape(a);
    hex_of_bytes_shape(b);
    if a.len() > 0 {
        let x = hex_of_bytes(a.drop_last());
        let y = hex_of_bytes(b.drop_last());
        let dx = hex_digits(a.last() as nat, 2);
        let dy = hex_digits(b.last() as nat, 2);
        hex_of_bytes_shape(a.drop_last());
        hex_of_bytes_shape(b.drop_last());
        hex_digits_shape(a.last() as nat, 2);
        hex_digits_shape(b.last() as nat, 2);
        assert((x + dx).take(x.len() as int) == x);
        assert((y + dy).take(x.len() as int) == y);
        assert((x + dx).skip(x.len() as int) == dx);
        assert((y + dy).skip(x.len() as int) == dy);
        reveal_with_fuel(pow16, 3);
        lemma_hex_injective(a.last() as nat, b.last() as nat, 2);
        hex_of_bytes_is_injective(a.drop_last(), b.drop_last());
        assert(a == a.drop_last().push(a.last()));
        assert(b == b.drop_last().push(b.last()));
    } else {
        assert(a == b);
    }
}

/// Blanks are the white space of Unicode: these characters and no others.
pub proof fn blanks_are_these(c: char)
    ensures
        is_space(c) <==> seq![
            '\u{9}', '\u{a}', '\u{b}', '\u{c}', '\u{d}', '\u{20}', '\u{85}', '\u{a0}', '\u{1680}',
            '\u{2000}', '\u{2001}', '\u{2002}', '\u{2003}', '\u{2004}', '\u{2005}', '\u{2006}',
            '\u{2007}', '\u{2008}', '\u{2009}', '\u{200a}', '\u{2028}', '\u{2029}', '\u{202f}',
            '\u{205f}', '\u{3000}',
        ].contains(c),
{
    let all = seq![
        '\u{9}', '\u{a}', '\u{b}', '\u{c}', '\u{d}', '\u{20}', '\u{85}', '\u{a0}', '\u{1680}',
        '\u{2000}', '\u{2001}', '\u{2002}', '\u{2003}', '\u{2004}', '\u{2005}', '\u{2006}',
        '\u{2007}', '\u{2008}', '\u{2009}', '\u{200a}', '\u{2028}', '\u{2029}', '\u{202f}',
        '\u{205f}', '\u{3000}',
    ];
    if is_space(c) {
        let n = c as u32;
        let at: int = if n <= 0xd {
            n - 9
        } else if n == 0x20 {
            5
        } else if n == 0x85 {
            6
        } else if n == 0xa0 {
            7
        } else if n == 0x1680 {
            8
        } else if n <= 0x200a {
            n - 0x2000 + 9
        } else if n == 0x2028 {
            20
        } else if n == 0x2029 {
            21
        } else if n == 0x202f {
            22
        } else if n == 0x205f {
            23
        } else {
            24
        };
        assert(all[at] == c);
    }
    if all.contains(c) {
        let at = choose|at: int| 0 <= at < all.len() && all[at] == c;
        assert(is_space(all[at]));
    }
}

proof fn lemma_trim_start(s: Seq<char>) -> (k: int)
    ensures
        0 <= k <= s.len(),
        trim_start(s) == s.skip(k),
        forall|i: int| 0 <= i < k ==> is_space(#[trigger] s[i]),
        k < s.len() ==> !is_space(s[k]),
    decreases s.len(),
{
    if s.len() > 0 && is_space(s[0]) {
        let rest = s.skip(1);
        let k = lemma_trim_start(rest);
        assert(rest.skip(k) == s.skip(k + 1));
        assert forall|i: int| 0 <= i < k + 1 implies is_space(#[trigger] s[i]) by {
            if i > 0 {
                assert(rest[i - 1] == s[i]);
            }
        }
        k + 1
    } else {
        assert(s.skip(0) == s);
        0
    }
}

proof fn lemma_trim_end(s: Seq<char>) -> (k: int)
    ensures
        0 <= k <= s.len(),
        trim_end(s) == s.take(k),
        forall|i: int| k <= i < s.len() ==> is_space(#[trigger] s[i]),
        k > 0 ==> !is_space(s[k - 1]),
    decreases s.len(),
{
    if s.len() > 0 && is_space(s.last()) {
        let front = s.drop_last();
        let k = lemma_trim_end(front);
        assert(front.take(k) == s.take(k));
        assert forall|i: int| k <= i < s.len() implies is_space(#[trigger] s[i]) by {
            if i < front.len() {
                assert(front[i] == s[i]);
            }
        }
        if k > 0 {
            assert(front[k - 1] == s[k - 1]);
        }
        k
    } else {
        assert(s.take(s.len() as int) == s);
        s.len() as int
    }
}

/// Trimming takes blanks off both ends and nothing else: blanks around a text
/// that neither begins nor ends with one are what it takes.
pub proof fn trimming_takes_the_blanks_around(a: Seq<char>, s: Seq<char>, b: Seq<char>)
    requires
        forall|i: int| 0 <= i < a.len() ==> is_space(#[trigger] a[i]),
        forall|i: int| 0 <= i < b.len() ==> is_space(#[trigger] b[i]),
        s.len() > 0 ==> !is_space(s[0]) && !is_space(s.last()),
    ensures
        trimmed(a + s + b) == s,
{
    let whole = a + s + b;
    let k = lemma_trim_start(whole);
    assert forall|i: int| 0 <= i < a.len() implies is_space(#[trigger] whole[i]) by {
        assert(whole[i] == a[i]);
    }
    if k < a.len() {
        assert(is_space(whole[k]));
    }
    let mid = whole.skip(k);
    let m = lemma_trim_end(mid);
    if s.len() > 0 {
        assert(whole[a.len() as int] == s[0]);
        assert(k == a.len());
        assert(mid == s + b);
        assert(mid[s.len() - 1] == s.last());
        assert(m >= s.len());
        if m > s.len() {
            assert(mid[m - 1] == b[m - 1 - s.len()]);
        }
        assert(mid.take(m) == s);
    } else {
        assert forall|i: int| 0 <= i < whole.len() implies is_space(#[trigger] whole[i]) by {
            if i >= a.len() {
                assert(whole[i] == b[i - a.len()]);
            }
        }
        if m > 0 {
            assert(mid[m - 1] == whole[k + m - 1]);
        }
        assert(mid.take(m) == s);
    }
}

/// Every text is what trimming leaves of it, with blanks around.
pub proof fn trimming_loses_only_blanks(s: Seq<char>) -> (parts: (Seq<char>, Seq<char>))
    ensures
        s == parts.0 + trimmed(s) + parts.1,
        forall|i: int| 0 <= i < parts.0.len() ==> is_space(#[trigger] parts.0[i]),
        forall|i: int| 0 <= i < parts.1.len() ==> is_space(#[trigger] parts.1[i]),
        trimmed(s).len() > 0 ==> !is_space(trimmed(s)[0]) && !is_space(trimmed(s).last()),
{
    let k = lemma_trim_start(s);
    let mid = s.skip(k);
    let m = lemma_trim_end(mid);
    let front = s.take(k);
    let back = mid.skip(m);
    assert(s == front + mid.take(m) + back);
    assert forall|i: int| 0 <= i < back.len() implies is_space(#[trigger] back[i]) by {
        assert(back[i] == mid[m + i]);
    }
    if m > 0 {
        assert(mid.take(m)[0] == s[k]);
        assert(mid.take(m).last() == mid[m - 1]);
    }
    (front, back)
}

/// Joining the pieces of a split with the separator gives the text back.
pub proof fn join_undoes_split(s: Seq<char>, sep: char)
    ensures
        join(split(s, seq![sep]), seq![sep]) == s,
    decreases s.len(),
{
    let seps = seq![sep];
    let all = split(s, seps);
    if s.len() == 0 {
        assert(all[0] == s);
    } else {
        let front = s.drop_last();
        let before = split(front, seps);
        join_undoes_split(front, sep);
        split_is_nonempty(front, seps);
        if seps.contains(s.last()) {
            assert(s.last() == sep);
            assert(all.drop_last() == before);
            assert(front + seps + Seq::<char>::empty() == s);
        } else {
            let last = before.last().push(s.last());
            assert(all == before.drop_last().push(last));
            assert(front.push(s.last()) == s);
            if all.len() > 1 {
                assert(all.drop_last() == before.drop_last());
                assert((join(before.drop_last(), seps) + seps + before.last()).push(s.last())
                    == join(before.drop_last(), seps) + seps + last);
            } else {
                assert(before[0] == before.last());
                assert(all[0] == last);
            }
        }
    }
}

/// Each separator counts alike: splitting at either of two is splitting at one
/// of them after the other was replaced by it.
pub proof fn separators_count_alike(s: Seq<char>, a: char, b: char)
    ensures
        split(s, seq![a, b]) == split(
            Seq::new(
                s.len(),
                |i: int|
                    if s[i] == b {
                        a
                    } else {
                        s[i]
                    },
            ),
            seq![a],
        ),
    decreases s.len(),
{
    let swap = |t: Seq<char>|
        Seq::new(
            t.len(),
            |i: int|
                if t[i] == b {
                    a
                } else {
                    t[i]
                },
        );
    let two = seq![a, b];
    let one = seq![a];
    if s.len() == 0 {
        assert(swap(s) == s);
    } else {
        let front = s.drop_last();
        separators_count_alike(front, a, b);
        assert(swap(s).drop_last() == swap(front));
        assert(two[0] == a && two[1] == b && one[0] == a);
        assert(two.contains(s.last()) <==> s.last() == a || s.last() == b);
        assert(one.contains(swap(s).last()) <==> two.contains(s.last()));
    }
}

/// Joining puts the separator once between neighbours and nowhere else: two
/// lists joined are their joined texts with the separator between.
pub proof fn join_puts_separators_between(a: Seq<Seq<char>>, b: Seq<Seq<char>>, sep: Seq<char>)
    ensures
        a.len() > 0 && b.len() > 0 ==> join(a + b, sep) == join(a, sep) + sep + join(b, sep),
        a.len() == 1 ==> join(a, sep) == a[0],
        a.len() == 0 ==> join(a, sep).len() == 0,
    decreases b.len(),
{
    if a.len() > 0 && b.len() > 0 {
        let front = b.drop_last();
        assert((a + b).drop_last() == a + front);
        assert((a + b).last() == b.last());
        if b.len() == 1 {
            assert(a + front == a);
        } else {
            join_puts_separators_between(a, front, sep);
            assert(join(a, sep) + sep + join(front, sep) + sep + b.last() == join(a, sep) + sep + (
            join(front, sep) + sep + b.last()));
        }
    }
}

/// Lower case of ASCII text: the length stays, a capital letter becomes the
/// letter thirty-two code points on, and every other character stays.
pub proof fn lower_case_of_ascii(s: Seq<char>)
    requires
        forall|i: int| 0 <= i < s.len() ==> #[trigger] (s[i] as u32) < 128,
    ensures
        lowercase(s).len() == s.len(),
        forall|i: int|
            0 <= i < s.len() ==> (#[trigger] lowercase(s)[i]) as u32 == s[i] as u32 + if 65 <= (
            s[i] as u32) <= 90 {
                32int
            } else {
                0
            },
{
    assert(all_ascii(s));
    assert forall|i: int| 0 <= i < s.len() implies (#[trigger] lowercase(s)[i]) as u32
        == s[i] as u32 + if 65 <= (s[i] as u32) <= 90 {
        32int
    } else {
        0
    } by {
        assert((s[i] as u32) < 128);
    }
}

/// The number that decimal digits stand for, the most significant first.
pub open spec fn digits_value(s: Seq<char>) -> int
    decreases s.len(),
{
    if s.len() == 0 {
        0
    } else {
        10 * digits_value(s.drop_last()) + (s.last() as u32 - 48)
    }
}

/// Whether a text is made of decimal digits.
pub open spec fn are_digits(s: Seq<char>) -> bool {
    forall|i: int| 0 <= i < s.len() ==> '0' <= #[trigger] s[i] <= '9'
}

/// A number in base ten reads back as the number. It has no zero in front,
/// unless it is zero.
pub proof fn decimal_reads_back(n: nat)
    ensures
        are_digits(decimal(n)),
        digits_value(decimal(n)) == n,
        decimal(n).len() > 0,
        decimal(n)[0] == '0' ==> n == 0,
        n == 0 ==> decimal(n).len() == 1,
    decreases n,
{
    reveal_with_fuel(digits_value, 2);
    if n < 10 {
        assert(decimal(n).drop_last() == Seq::<char>::empty());
    } else {
        decimal_reads_back(n / 10);
        assert(decimal(n).drop_last() == decimal(n / 10));
        assert(decimal(n)[0] == decimal(n / 10)[0]);
    }
}

/// Two numbers that are written alike in base ten are the same number.
pub proof fn decimal_is_faithful(a: nat, b: nat)
    requires
        decimal(a) == decimal(b),
    ensures
        a == b,
{
    decimal_reads_back(a);
    decimal_reads_back(b);
}

proof fn lemma_zeros_in_front(k: nat, s: Seq<char>)
    ensures
        digits_value(Seq::new(k, |i: int| '0') + s) == digits_value(s),
    decreases s.len(), k,
{
    let zeros = Seq::new(k, |i: int| '0');
    let all = zeros + s;
    if s.len() > 0 {
        assert(all.drop_last() == zeros + s.drop_last());
        assert(all.last() == s.last());
        lemma_zeros_in_front(k, s.drop_last());
    } else {
        assert(all == zeros);
        assert(digits_value(s) == 0);
        if k > 0 {
            let fewer = Seq::new((k - 1) as nat, |i: int| '0');
            assert(zeros.drop_last() == fewer);
            assert(fewer + s == fewer);
            lemma_zeros_in_front((k - 1) as nat, s);
            assert(zeros.last() == '0');
        }
    }
}

/// A padded number reads back as the number. It is as wide as asked for, or
/// wider if the number needs it, and then it has no zero in front.
pub proof fn padding_keeps_the_number(n: nat, width: nat)
    ensures
        ({
            let p = zero_padded(decimal(n), width);
            &&& are_digits(p)
            &&& digits_value(p) == n
            &&& p.len() >= width
            &&& p.len() > width ==> p == decimal(n)
            &&& width == 2 && n < 100 ==> p.len() == 2
            &&& width == 4 && n < 10_000 ==> p.len() == 4
        }),
{
    decimal_reads_back(n);
    let s = decimal(n);
    if n > 0 {
        lemma_long_number(s);
    }
    if s.len() < width {
        let k = (width - s.len()) as nat;
        lemma_zeros_in_front(k, s);
        let p = zero_padded(s, width);
        assert forall|i: int| 0 <= i < p.len() implies '0' <= #[trigger] p[i] <= '9' by {
            if i >= k {
                assert(p[i] == s[i - k]);
            }
        }
    }
}

/// A number below one hundred, padded to two, is its tens and its ones.
pub proof fn two_digits_are_tens_and_ones(n: nat)
    requires
        n < 100,
    ensures
        ({
            let p = zero_padded(decimal(n), 2);
            &&& p.len() == 2
            &&& p[0] as u32 == 48 + n / 10
            &&& p[1] as u32 == 48 + n % 10
        }),
{
    padding_keeps_the_number(n, 2);
    decimal_reads_back(n);
    let p = zero_padded(decimal(n), 2);
    reveal_with_fuel(digits_value, 4);
    assert(p.drop_last().drop_last() == Seq::<char>::empty());
    assert(p.last() == p[1]);
    assert(p.drop_last().last() == p[0]);
}

proof fn lemma_long_number(s: Seq<char>)
    requires
        are_digits(s),
        s.len() > 0,
        s[0] != '0',
    ensures
        digits_value(s) >= 1,
        s.len() >= 2 ==> digits_value(s) >= 10,
        s.len() >= 3 ==> digits_value(s) >= 100,
        s.len() >= 4 ==> digits_value(s) >= 1000,
        s.len() >= 5 ==> digits_value(s) >= 10_000,
    decreases s.len(),
{
    let front = s.drop_last();
    assert(s.last() == s[s.len() - 1]);
    assert('0' <= s[0] <= '9');
    if s.len() > 1 {
        assert forall|i: int| 0 <= i < front.len() implies '0' <= #[trigger] front[i]
            <= '9' by {
            assert(front[i] == s[i]);
        }
        lemma_long_number(front);
    } else {
        assert(front == Seq::<char>::empty());
        assert(digits_value(front) == 0);
    }
}

/// A signed number reads back: a negative one is a minus sign and the padded
/// digits of its amount.
pub proof fn signed_number_reads_back(n: int, width: nat)
    requires
        width > 0,
    ensures
        ({
            let p = signed_padded(n, width);
            &&& p.len() >= width
            &&& n >= 0 ==> are_digits(p) && digits_value(p) == n
            &&& n < 0 ==> p[0] == '-' && are_digits(p.skip(1)) && digits_value(p.skip(1)) == -n
        }),
{
    if n >= 0 {
        padding_keeps_the_number(n as nat, width);
    } else {
        padding_keeps_the_number((-n) as nat, (width - 1) as nat);
        let digits = zero_padded(decimal((-n) as nat), (width - 1) as nat);
        assert(signed_padded(n, width).skip(1) == digits);
    }
}

/// The value of a base-sixteen digit.
pub open spec fn hex_digit_value(c: char) -> int {
    if c as u32 >= 97 {
        c as u32 - 87
    } else {
        c as u32 - 48
    }
}

/// The number that base-sixteen digits stand for, the most significant first.
pub open spec fn hex_value(s: Seq<char>) -> int
    decreases s.len(),
{
    if s.len() == 0 {
        0
    } else {
        16 * hex_value(s.drop_last()) + hex_digit_value(s.last())
    }
}

/// Enough base-sixteen digits read back as the number.
pub proof fn hex_reads_back(n: nat, count: nat)
    requires
        n < pow16(count),
    ensures
        hex_digits(n, count).len() == count,
        hex_value(hex_digits(n, count)) == n,
    decreases count,
{
    if count > 0 {
        assert(n / 16 < pow16((count - 1) as nat)) by (nonlinear_arith)
            requires
                n < 16 * pow16((count - 1) as nat),
        ;
        hex_reads_back(n / 16, (count - 1) as nat);
        assert(hex_digits(n, count).drop_last() == hex_digits(n / 16, (count - 1) as nat));
    }
}

/// The two digits of each byte read back as the byte, in the order of the
/// bytes.
pub proof fn hex_of_bytes_reads_back(b: Seq<u8>, i: int)
    requires
        0 <= i < b.len(),
    ensures
        hex_of_bytes(b).len() == 2 * b.len(),
        hex_value(hex_of_bytes(b).subrange(2 * i, 2 * i + 2)) == b[i],
    decreases b.len(),
{
    let front = b.drop_last();
    hex_of_bytes_shape(b);
    hex_of_bytes_shape(front);
    reveal_with_fuel(pow16, 3);
    hex_reads_back(b.last() as nat, 2);
    if i < front.len() {
        hex_of_bytes_reads_back(front, i);
        assert(hex_of_bytes(b).subrange(2 * i, 2 * i + 2) == hex_of_bytes(front).subrange(
            2 * i,
            2 * i + 2,
        ));
    } else {
        assert(hex_of_bytes(b).subrange(2 * i, 2 * i + 2) == hex_digits(b.last() as nat, 2));
    }
}

/// A text begins with another exactly if it is that other text and more.
pub proof fn beginnings_are_followed_by_the_rest(s: Seq<char>, prefix: Seq<char>, rest: Seq<char>)
    ensures
        begins_with(prefix + rest, prefix),
        begins_with(s, prefix) ==> s == prefix + s.skip(prefix.len() as int),
{
    assert((prefix + rest).take(prefix.len() as int) == prefix);
    if begins_with(s, prefix) {
        assert(s == s.take(prefix.len() as int) + s.skip(prefix.len() as int));
    }
}

/// In dictionary order the first difference decides: the text with the smaller
/// code point comes first, and a text comes before every longer one that it
/// begins.
pub proof fn first_difference_decides(common: Seq<char>, a: Seq<char>, b: Seq<char>)
    ensures
        a.len() > 0 && b.len() > 0 && a[0] != b[0] ==> (text_le(common + a, common + b) <==> a[0]
            < b[0]),
        text_le(common, common + b),
        b.len() > 0 ==> !text_le(common + b, common),
    decreases common.len(),
{
    if common.len() == 0 {
        assert(common + a == a);
        assert(common + b == b);
    } else {
        let rest = common.skip(1);
        first_difference_decides(rest, a, b);
        assert((common + a).skip(1) == rest + a);
        assert((common + b).skip(1) == rest + b);
    }
}

/// Strings stand for their characters, one by one where they are listed and
/// not at all where there is none.
pub proof fn strings_stand_for_their_characters(
    v: Seq<String>,
    s: String,
    o: Option<String>,
    t: Option<&str>,
)
    ensures
        texts(Seq::empty()).len() == 0,
        texts(v.push(s)) == texts(v).push(s@),
        opt_text(o) is Some <==> o is Some,
        o matches Some(x) ==> opt_text(o) == Some(x@),
        str_text(t) is Some <==> t is Some,
        t matches Some(x) ==> str_text(t) == Some(x@),
{
    assert(texts(v.push(s)) =~= texts(v).push(s@));
}

} // verus!
