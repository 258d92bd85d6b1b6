//! Selection rules for which scanned files to ingest.
//!
//! All active criteria must pass (logical AND). Extension matching is
//! case-insensitive; an explicit exclude always beats an include.

use crate::dates;
use crate::dates::{midnight_ns, month_days};
use crate::path;
use crate::path::FilePath;
use crate::scan;
use crate::scan::SourceFile;
use crate::text;
use crate::text::{
    from_chars, same_text, split_text, to_ascii_lower, to_chars, to_lower, trim,
};
use vstd::prelude::*;
use vstd::string::*;

verus! {

/// A set of include/exclude rules applied to each [`SourceFile`].
#[derive(Debug, Clone)]
pub struct Filter {
    /// If set, only files whose extension is in this list are kept.
    pub include_ext: Option<Vec<String>>,
    /// Files whose extension is in this list are always dropped.
    pub exclude_ext: Vec<String>,
    /// Minimum size in bytes (inclusive).
    pub min_size: Option<u64>,
    /// Maximum size in bytes (inclusive).
    pub max_size: Option<u64>,
    /// Keep only files modified at or after this instant (ns since Unix epoch).
    pub newer_than_ns: Option<i128>,
    /// Keep only files modified strictly before this instant (ns since Unix epoch).
    pub older_than_ns: Option<i128>,
    /// Files at or below one of these paths are always dropped.
    pub exclude_paths: Vec<FilePath>,
    /// If set, only files that this account owns are kept.
    pub owner: Option<String>,
}

/// What a [`Filter`] stands for.
pub struct FilterModel {
    pub include_ext: Option<Seq<Seq<char>>>,
    pub exclude_ext: Seq<Seq<char>>,
    pub min_size: Option<u64>,
    pub max_size: Option<u64>,
    pub newer_than_ns: Option<i128>,
    pub older_than_ns: Option<i128>,
    pub exclude_paths: Seq<Seq<char>>,
    pub owner: Option<Seq<char>>,
}

impl View for Filter {
    type V = FilterModel;

    open spec fn view(&self) -> FilterModel {
        FilterModel {
            include_ext: text::opt_texts(self.include_ext),
            exclude_ext: text::texts(self.exclude_ext@),
            min_size: self.min_size,
            max_size: self.max_size,
            newer_than_ns: self.newer_than_ns,
            older_than_ns: self.older_than_ns,
            exclude_paths: path::path_texts(self.exclude_paths@),
            owner: text::opt_text(self.owner),
        }
    }
}

/// The filter without any criterion.
pub open spec fn keep_all() -> FilterModel {
    FilterModel {
        include_ext: None,
        exclude_ext: Seq::empty(),
        min_size: None,
        max_size: None,
        newer_than_ns: None,
        older_than_ns: None,
        exclude_paths: Seq::empty(),
        owner: None,
    }
}

/// The lower-cased extension of a path (without the dot), if it has one.
pub open spec fn lower_ext(rel: Seq<char>) -> Option<Seq<char>> {
    match path::extension(rel) {
        Some(e) => Some(text::lowercase(e)),
        None => None,
    }
}

/// Whether a list of extensions holds a lower-cased one, whatever the letter
/// case of the list.
pub open spec fn lists(exts: Seq<Seq<char>>, e: Seq<char>) -> bool {
    exists|i: int| 0 <= i < exts.len() && text::lowercase(#[trigger] exts[i]) == e
}

impl FilterModel {
    /// Whether the size is within the bounds.
    pub open spec fn size_passes(self, size: u64) -> bool {
        &&& self.min_size matches Some(min) ==> min <= size
        &&& self.max_size matches Some(max) ==> size <= max
    }

    /// Whether the modification time is within the bounds.
    pub open spec fn time_passes(self, mtime_ns: i128) -> bool {
        &&& self.newer_than_ns matches Some(after) ==> after <= mtime_ns
        &&& self.older_than_ns matches Some(before) ==> mtime_ns < before
    }

    /// Whether the extension is wanted. A file without an extension cannot be
    /// on a list of wanted extensions.
    pub open spec fn ext_passes(self, ext: Option<Seq<char>>) -> bool {
        match ext {
            Some(e) => {
                &&& !lists(self.exclude_ext, e)
                &&& self.include_ext matches Some(wanted) ==> lists(wanted, e)
            },
            None => self.include_ext is None,
        }
    }

    /// Whether the path is at or below an excluded one.
    pub open spec fn path_excluded(self, abs: Seq<char>) -> bool {
        exists|i: int|
            0 <= i < self.exclude_paths.len() && path::path_starts_with(
                abs,
                #[trigger] self.exclude_paths[i],
            )
    }

    /// Whether a file passes every rule that needs no more than the scan found.
    pub open spec fn admits(self, f: scan::SourceModel) -> bool {
        &&& self.size_passes(f.size)
        &&& self.time_passes(f.mtime_ns)
        &&& self.ext_passes(lower_ext(f.rel))
        &&& !self.path_excluded(f.abs)
    }

    /// Whether the owner of a file passes. An unknown owner is nobody's.
    pub open spec fn owner_passes(self, owner: Option<Seq<char>>) -> bool {
        self.owner matches Some(wanted) ==> owner == Some(wanted)
    }
}

impl Default for Filter {
    fn default() -> (r: Self)
        ensures
            r@ == keep_all(),
    {
        let r = Filter {
            include_ext: None,
            exclude_ext: Vec::new(),
            min_size: None,
            max_size: None,
            newer_than_ns: None,
            older_than_ns: None,
            exclude_paths: Vec::new(),
            owner: None,
        };
        assert(r@.exclude_ext == keep_all().exclude_ext);
        assert(r@.exclude_paths == keep_all().exclude_paths);
        r
    }
}

impl Filter {
    /// True when no criteria are set (keeps everything).
    pub fn is_empty(&self) -> (r: bool)
        ensures
            r == (self@ == keep_all()),
    {
        let r = self.include_ext.is_none() && self.exclude_ext.len() == 0 && self.min_size.is_none()
            && self.max_size.is_none() && self.newer_than_ns.is_none()
            && self.older_than_ns.is_none() && self.exclude_paths.len() == 0
            && self.owner.is_none();
        assert(self@.exclude_ext.len() == self.exclude_ext@.len());
        assert(self@.exclude_paths.len() == self.exclude_paths@.len());
        if r {
            assert(self@.exclude_ext == keep_all().exclude_ext);
            assert(self@.exclude_paths == keep_all().exclude_paths);
        }
        r
    }

    /// Whether a file passes every active rule on its size, date, extension and
    /// path.
    pub fn accepts(&self, f: &SourceFile) -> (r: bool)
        ensures
            r == self@.admits(f@),
    {
        if let Some(min) = self.min_size {
            if f.size < min {
                return false;
            }
        }
        if let Some(max) = self.max_size {
            if f.size > max {
                return false;
            }
        }
        if let Some(after) = self.newer_than_ns {
            if f.mtime_ns < after {
                return false;
            }
        }
        if let Some(before) = self.older_than_ns {
            if f.mtime_ns >= before {
                return false;
            }
        }
        match ext_of(&f.rel) {
            Some(ext) => {
                if lists_ext(&self.exclude_ext, ext.as_str()) {
                    return false;
                }
                if let Some(wanted) = &self.include_ext {
                    if !lists_ext(wanted, ext.as_str()) {
                        return false;
                    }
                }
            },
            None => {
                if self.include_ext.is_some() {
                    return false;
                }
            },
        }
        let mut i: usize = 0;
        while i < self.exclude_paths.len()
            invariant
                i <= self.exclude_paths@.len(),
                forall|j: int|
                    0 <= j < i ==> !path::path_starts_with(
                        f.abs@,
                        #[trigger] self@.exclude_paths[j],
                    ),
            decreases self.exclude_paths@.len() - i,
        {
            assert(self@.exclude_paths[i as int] == self.exclude_paths@[i as int]@);
            if f.abs.starts_with(&self.exclude_paths[i]) {
                return false;
            }
            i += 1;
        }
        true
    }

    /// Whether the account that owns a file passes.
    pub fn accepts_owner(&self, owner: &Option<String>) -> (r: bool)
        ensures
            r == self@.owner_passes(text::opt_text(*owner)),
    {
        match &self.owner {
            None => true,
            Some(wanted) => match owner {
                None => false,
                Some(name) => same_text(name.as_str(), wanted.as_str()),
            },
        }
    }

    /// A filter from what a user typed. Extensions are lists with commas, sizes
    /// are like `10MB` or `500K`, dates are like `2026-06-03` and stand for
    /// midnight UTC. What is blank counts as absent.
    pub fn build(
        include_ext: Option<&str>,
        exclude_ext: Option<&str>,
        min_size: Option<&str>,
        max_size: Option<&str>,
        newer_than: Option<&str>,
        older_than: Option<&str>,
    ) -> (r: Result<Filter, FilterError>)
        ensures
            outcome_is(
                r,
                built(
                    text::str_text(include_ext),
                    text::str_text(exclude_ext),
                    text::str_text(min_size),
                    text::str_text(max_size),
                    text::str_text(newer_than),
                    text::str_text(older_than),
                ),
            ),
    {
        let min = match size_bound(min_size) {
            Ok(n) => n,
            Err(e) => return Err(e),
        };
        let max = match size_bound(max_size) {
            Ok(n) => n,
            Err(e) => return Err(e),
        };
        let newer = match date_bound(newer_than) {
            Ok(n) => n,
            Err(e) => return Err(e),
        };
        let older = match date_bound(older_than) {
            Ok(n) => n,
            Err(e) => return Err(e),
        };
        let wanted = ext_list(include_ext);
        assert(text::texts(wanted@).len() == wanted@.len());
        let included = if wanted.len() == 0 {
            None
        } else {
            Some(wanted)
        };
        let exclude_paths: Vec<FilePath> = Vec::new();
        assert(path::path_texts(exclude_paths@) == Seq::<Seq<char>>::empty());
        Ok(
            Filter {
                include_ext: included,
                exclude_ext: ext_list(exclude_ext),
                min_size: min,
                max_size: max,
                newer_than_ns: newer,
                older_than_ns: older,
                exclude_paths,
                owner: None,
            },
        )
    }
}

/// Whether a list of extensions holds a lower-cased one, whatever the letter
/// case of the list.
fn lists_ext(exts: &Vec<String>, e: &str) -> (r: bool)
    ensures
        r == lists(text::texts(exts@), e@),
{
    let ghost all = text::texts(exts@);
    let mut i: usize = 0;
    while i < exts.len()
        invariant
            all == text::texts(exts@),
            i <= exts@.len(),
            forall|j: int| 0 <= j < i ==> text::lowercase(#[trigger] all[j]) != e@,
        decreases exts@.len() - i,
    {
        assert(all[i as int] == exts@[i as int]@);
        if same_text(to_lower(exts[i].as_str()).as_str(), e) {
            return true;
        }
        i += 1;
    }
    false
}

/// Lower-cased extension (without the dot), or `None` if the file has none.
pub fn ext_of(rel: &FilePath) -> (r: Option<String>)
    ensures
        text::opt_text(r) == lower_ext(rel@),
{
    match rel.extension() {
        Some(e) => Some(to_lower(e.as_str())),
        None => None,
    }
}

// ---------------------------------------------------------------------------
// What a user types
// ---------------------------------------------------------------------------

/// Why a filter could not be built.
#[derive(Debug)]
pub enum FilterError {
    /// Not a size.
    Size(String),
    /// Not a date.
    Date(String),
}

/// What a [`FilterError`] stands for.
pub enum FilterFailure {
    Size(Seq<char>),
    Date(Seq<char>),
}

impl View for FilterError {
    type V = FilterFailure;

    open spec fn view(&self) -> FilterFailure {
        match *self {
            FilterError::Size(s) => FilterFailure::Size(s@),
            FilterError::Date(s) => FilterFailure::Date(s@),
        }
    }
}

/// The message for a filter that could not be built.
pub open spec fn filter_message(f: FilterFailure) -> Seq<char> {
    match f {
        FilterFailure::Size(s) => "invalid size '"@ + s + "' (expected e.g. 10MB, 500K)"@,
        FilterFailure::Date(s) => "invalid date '"@ + s + "' (expected YYYY-MM-DD)"@,
    }
}

impl FilterError {
    /// The message for the user.
    pub fn message(&self) -> (r: String)
        ensures
            r@ == filter_message(self@),
    {
        match self {
            FilterError::Size(s) => {
                let mut r = "invalid size '".to_owned();
                r.append(s.as_str());
                r.append("' (expected e.g. 10MB, 500K)");
                r
            },
            FilterError::Date(s) => {
                let mut r = "invalid date '".to_owned();
                r.append(s.as_str());
                r.append("' (expected YYYY-MM-DD)");
                r
            },
        }
    }
}

/// Whether a result holds what was expected.
pub open spec fn outcome_is(
    r: Result<Filter, FilterError>,
    expected: Result<FilterModel, FilterFailure>,
) -> bool {
    match expected {
        Ok(m) => r matches Ok(f) && f@ == m,
        Err(x) => r matches Err(e) && e@ == x,
    }
}

/// `s` without its leading dots.
pub open spec fn without_dots(s: Seq<char>) -> Seq<char>
    decreases s.len(),
{
    if s.len() > 0 && s[0] == '.' {
        without_dots(s.skip(1))
    } else {
        s
    }
}

/// An extension as the rules compare it: without blanks around it and dots in
/// front, in lower case.
pub open spec fn normal_ext(s: Seq<char>) -> Seq<char> {
    text::lowercase(without_dots(text::trimmed(s)))
}

/// The extensions among the pieces: each in its normal form, without those
/// that are nothing but blanks and dots.
pub open spec fn normal_exts(pieces: Seq<Seq<char>>) -> Seq<Seq<char>>
    decreases pieces.len(),
{
    if pieces.len() == 0 {
        Seq::<Seq<char>>::empty()
    } else if without_dots(text::trimmed(pieces.last())).len() == 0 {
        normal_exts(pieces.drop_last())
    } else {
        normal_exts(pieces.drop_last()).push(normal_ext(pieces.last()))
    }
}

/// The extensions in a list with commas.
pub open spec fn listed_exts(s: Option<Seq<char>>) -> Seq<Seq<char>> {
    match s {
        Some(s) => normal_exts(text::split(s, seq![','])),
        None => Seq::<Seq<char>>::empty(),
    }
}

/// Whether `c` is a decimal digit.
pub open spec fn is_digit(c: char) -> bool {
    '0' <= c <= '9'
}

/// Whether `s` holds nothing but decimal digits.
pub open spec fn all_digits(s: Seq<char>) -> bool {
    forall|i: int| 0 <= i < s.len() ==> is_digit(#[trigger] s[i])
}

/// How many decimal digits stand at the front of `s`.
pub open spec fn digit_run(s: Seq<char>) -> nat
    decreases s.len(),
{
    if s.len() > 0 && is_digit(s[0]) {
        1 + digit_run(s.skip(1))
    } else {
        0
    }
}

/// The number that decimal digits stand for.
pub open spec fn number(s: Seq<char>) -> nat
    decreases s.len(),
{
    if s.len() == 0 {
        0
    } else {
        number(s.drop_last()) * 10 + (s.last() as u32 - '0' as u32) as nat
    }
}

/// The bytes of one unit of size.
pub open spec fn unit_bytes(unit: Seq<char>) -> Option<nat> {
    let u = text::ascii_lower(unit);
    if u == ""@ || u == "b"@ {
        Some(1)
    } else if u == "k"@ || u == "kb"@ {
        Some(1024)
    } else if u == "m"@ || u == "mb"@ {
        Some(1_048_576)
    } else if u == "g"@ || u == "gb"@ {
        Some(1_073_741_824)
    } else if u == "t"@ || u == "tb"@ {
        Some(1_099_511_627_776)
    } else {
        None
    }
}

/// The bytes that a size such as `10MB` or `500 K` stands for: a whole number
/// and a unit, in powers of 1024. A size beyond 64 bits is none.
pub open spec fn size_of_text(s: Seq<char>) -> Option<u64> {
    let t = text::trimmed(s);
    let k = digit_run(t) as int;
    match unit_bytes(text::trimmed(t.skip(k))) {
        Some(unit) => if k > 0 && number(t.take(k)) * unit <= u64::MAX {
            Some((number(t.take(k)) * unit) as u64)
        } else {
            None
        },
        None => None,
    }
}

/// The instant that a date such as `2026-06-03` stands for: its midnight, UTC.
pub open spec fn instant_of_text(s: Seq<char>) -> Option<i128> {
    let t = text::trimmed(s);
    if t.len() == 10 && t[4] == '-' && t[7] == '-' && all_digits(t.take(4)) && all_digits(
        t.subrange(5, 7),
    ) && all_digits(t.subrange(8, 10)) && dates::is_date(
        number(t.take(4)) as int,
        number(t.subrange(5, 7)) as int,
        number(t.subrange(8, 10)) as int,
    ) {
        Some(
            (dates::day_number(
                number(t.take(4)) as int,
                number(t.subrange(5, 7)) as int,
                number(t.subrange(8, 10)) as int,
            ) * dates::DAY_NS) as i128,
        )
    } else {
        None
    }
}

/// Whether a text is absent or blank.
pub open spec fn is_blank(s: Option<Seq<char>>) -> bool {
    s matches Some(s) ==> text::trimmed(s).len() == 0
}

/// The bound that a typed size sets.
pub open spec fn size_limit(s: Option<Seq<char>>) -> Result<Option<u64>, FilterFailure> {
    if is_blank(s) {
        Ok(None)
    } else {
        match size_of_text(s->0) {
            Some(n) => Ok(Some(n)),
            None => Err(FilterFailure::Size(s->0)),
        }
    }
}

/// The bound that a typed date sets.
pub open spec fn date_limit(s: Option<Seq<char>>) -> Result<Option<i128>, FilterFailure> {
    if is_blank(s) {
        Ok(None)
    } else {
        match instant_of_text(s->0) {
            Some(n) => Ok(Some(n)),
            None => Err(FilterFailure::Date(s->0)),
        }
    }
}

/// The filter that was typed, or the first thing in it that makes no sense.
pub open spec fn built(
    include_ext: Option<Seq<char>>,
    exclude_ext: Option<Seq<char>>,
    min_size: Option<Seq<char>>,
    max_size: Option<Seq<char>>,
    newer_than: Option<Seq<char>>,
    older_than: Option<Seq<char>>,
) -> Result<FilterModel, FilterFailure> {
    match (
        size_limit(min_size),
        size_limit(max_size),
        date_limit(newer_than),
        date_limit(older_than),
    ) {
        (Err(x), _, _, _) => Err(x),
        (_, Err(x), _, _) => Err(x),
        (_, _, Err(x), _) => Err(x),
        (_, _, _, Err(x)) => Err(x),
        (Ok(min), Ok(max), Ok(newer), Ok(older)) => Ok(
            FilterModel {
                include_ext: if listed_exts(include_ext).len() == 0 {
                    None
                } else {
                    Some(listed_exts(include_ext))
                },
                exclude_ext: listed_exts(exclude_ext),
                min_size: min,
                max_size: max,
                newer_than_ns: newer,
                older_than_ns: older,
                exclude_paths: Seq::empty(),
                owner: None,
            },
        ),
    }
}

/// `s` without blanks around it and dots in front.
fn bare_ext(s: &str) -> (r: String)
    ensures
        r@ == without_dots(text::trimmed(s@)),
{
    let t = to_chars(trim(s).as_str());
    let n = t.len();
    let mut k: usize = 0;
    assert(t@.skip(0) == t@);
    while k < n && t[k] == '.'
        invariant
            n == t@.len(),
            k <= n,
            without_dots(t@) == without_dots(t@.skip(k as int)),
        decreases n - k,
    {
        assert(t@.skip(k as int).skip(1) == t@.skip(k + 1));
        k += 1;
    }
    assert(t@.subrange(k as int, n as int) == t@.skip(k as int));
    from_chars(&t, k, n)
}

/// An extension as the rules compare it: without blanks around it and dots in
/// front, in lower case.
pub fn normalize_ext(s: &str) -> (r: String)
    ensures
        r@ == normal_ext(s@),
{
    to_lower(bare_ext(s).as_str())
}

/// The extensions in a list with commas.
fn ext_list(s: Option<&str>) -> (r: Vec<String>)
    ensures
        text::texts(r@) == listed_exts(text::str_text(s)),
{
    let mut r: Vec<String> = Vec::new();
    assert(text::texts(r@) == Seq::<Seq<char>>::empty());
    let Some(s) = s else {
        return r;
    };
    let mut seps: Vec<char> = Vec::new();
    seps.push(',');
    assert(seps@ == seq![',']);
    let pieces = split_text(s, &seps);
    let ghost all = text::split(s@, seq![',']);
    let mut i: usize = 0;
    assert(all.take(0) == Seq::<Seq<char>>::empty());
    while i < pieces.len()
        invariant
            all == text::texts(pieces@),
            i <= pieces@.len(),
            text::texts(r@) == normal_exts(all.take(i as int)),
        decreases pieces@.len() - i,
    {
        assert(all.take(i + 1).drop_last() == all.take(i as int));
        assert(all.take(i + 1).last() == pieces@[i as int]@);
        let ghost before = text::texts(r@);
        let ext = bare_ext(pieces[i].as_str());
        if !ext.as_str().is_empty() {
            let low = to_lower(ext.as_str());
            let ghost model = low@;
            r.push(low);
            assert(text::texts(r@) == before.push(model));
        }
        i += 1;
    }
    assert(all.take(all.len() as int) == all);
    r
}

proof fn lemma_number_step(s: Seq<char>, k: int)
    requires
        0 <= k < s.len(),
        all_digits(s),
    ensures
        number(s.take(k + 1)) == number(s.take(k)) * 10 + (s[k] as u32 - '0' as u32),
{
    assert(s.take(k + 1).drop_last() == s.take(k));
    assert(is_digit(s[k]));
}

proof fn lemma_number_grows(s: Seq<char>, k: int)
    requires
        0 <= k <= s.len(),
        all_digits(s),
    ensures
        number(s.take(k)) <= number(s),
    decreases s.len() - k,
{
    if k < s.len() {
        lemma_number_step(s, k);
        lemma_number_grows(s, k + 1);
    } else {
        assert(s.take(k) == s);
    }
}

proof fn lemma_digit_run(s: Seq<char>, k: int)
    requires
        0 <= k <= s.len(),
        all_digits(s.take(k)),
        k < s.len() ==> !is_digit(s[k]),
    ensures
        digit_run(s) == k,
    decreases s.len(),
{
    if k > 0 {
        assert(is_digit(s.take(k)[0]));
        let rest = s.skip(1);
        assert(rest.take(k - 1) == s.take(k).skip(1));
        assert forall|i: int| 0 <= i < k - 1 implies is_digit(#[trigger] rest.take(k - 1)[i]) by {
            assert(s.take(k)[i + 1] == rest.take(k - 1)[i]);
        }
        lemma_digit_run(rest, k - 1);
    }
}

/// The number that decimal digits stand for, if it fits.
fn number_of(chars: &Vec<char>, from: usize, to: usize) -> (r: Option<u64>)
    requires
        from <= to <= chars@.len(),
        all_digits(chars@.subrange(from as int, to as int)),
    ensures
        r is Some <==> number(chars@.subrange(from as int, to as int)) <= u64::MAX,
        r matches Some(n) ==> n == number(chars@.subrange(from as int, to as int)),
{
    let ghost s = chars@.subrange(from as int, to as int);
    let mut n: u64 = 0;
    let mut i: usize = from;
    assert(s.take(0) == Seq::<char>::empty());
    while i < to
        invariant
            from <= i <= to <= chars@.len(),
            s == chars@.subrange(from as int, to as int),
            all_digits(s),
            n == number(s.take(i - from)),
        decreases to - i,
    {
        proof {
            lemma_number_step(s, i - from);
            lemma_number_grows(s, i - from + 1);
            assert(is_digit(s[i - from]));
        }
        let d: u64 = chars[i] as u64 - '0' as u64;
        match n.checked_mul(10) {
            None => {
                return None;
            },
            Some(tens) => match tens.checked_add(d) {
                None => {
                    return None;
                },
                Some(next) => {
                    n = next;
                },
            },
        }
        i += 1;
    }
    assert(s.take(to - from) == s);
    Some(n)
}

/// Whether `chars[from..to]` holds nothing but decimal digits.
fn digits_at(chars: &Vec<char>, from: usize, to: usize) -> (r: bool)
    requires
        from <= to <= chars@.len(),
    ensures
        r == all_digits(chars@.subrange(from as int, to as int)),
{
    let ghost s = chars@.subrange(from as int, to as int);
    let mut i: usize = from;
    while i < to
        invariant
            from <= i <= to <= chars@.len(),
            s == chars@.subrange(from as int, to as int),
            forall|j: int| 0 <= j < i - from ==> is_digit(#[trigger] s[j]),
        decreases to - i,
    {
        assert(s[i - from] == chars@[i as int]);
        if !('0' <= chars[i] && chars[i] <= '9') {
            return false;
        }
        i += 1;
    }
    true
}

/// The bytes of one unit of size.
fn unit_of(unit: &str) -> (r: Option<u64>)
    ensures
        match unit_bytes(unit@) {
            Some(n) => r == Some(n as u64) && 0 < n <= 1_099_511_627_776,
            None => r is None,
        },
{
    let u = to_ascii_lower(unit);
    let u = u.as_str();
    if same_text(u, "") || same_text(u, "b") {
        Some(1)
    } else if same_text(u, "k") || same_text(u, "kb") {
        Some(1024)
    } else if same_text(u, "m") || same_text(u, "mb") {
        Some(1_048_576)
    } else if same_text(u, "g") || same_text(u, "gb") {
        Some(1_073_741_824)
    } else if same_text(u, "t") || same_text(u, "tb") {
        Some(1_099_511_627_776)
    } else {
        None
    }
}

/// The bytes that a size such as `10MB` or `500 K` stands for.
pub fn parse_size(s: &str) -> (r: Option<u64>)
    ensures
        r == size_of_text(s@),
{
    let t = to_chars(trim(s).as_str());
    let n = t.len();
    let mut k: usize = 0;
    while k < n && '0' <= t[k] && t[k] <= '9'
        invariant
            n == t@.len(),
            k <= n,
            all_digits(t@.take(k as int)),
        decreases n - k,
    {
        k += 1;
    }
    proof {
        lemma_digit_run(t@, k as int);
        assert(t@.subrange(0, k as int) == t@.take(k as int));
        assert(t@.subrange(k as int, n as int) == t@.skip(k as int));
    }
    let ghost count = number(t@.take(k as int));
    let rest = from_chars(&t, k, n);
    let Some(unit) = unit_of(trim(rest.as_str()).as_str()) else {
        return None;
    };
    if k == 0 {
        return None;
    }
    match number_of(&t, 0, k) {
        None => {
            assert(count * unit > u64::MAX) by (nonlinear_arith)
                requires
                    count > u64::MAX,
                    unit >= 1,
            ;
            None
        },
        Some(m) => m.checked_mul(unit),
    }
}

/// The instant that a date such as `2026-06-03` stands for: its midnight, UTC.
pub fn parse_date(s: &str) -> (r: Option<i128>)
    ensures
        r == instant_of_text(s@),
{
    let t = to_chars(trim(s).as_str());
    if t.len() != 10 || t[4] != '-' || t[7] != '-' || !digits_at(&t, 0, 4) || !digits_at(&t, 5, 7)
        || !digits_at(&t, 8, 10) {
        assert(t@.len() == 10 ==> t@.subrange(0, 4) == t@.take(4));
        return None;
    }
    assert(t@.subrange(0, 4) == t@.take(4));
    proof {
        lemma_number_bound(t@.take(4));
        lemma_number_bound(t@.subrange(5, 7));
        lemma_number_bound(t@.subrange(8, 10));
        reveal_with_fuel(ten_to, 5);
    }
    match (number_of(&t, 0, 4), number_of(&t, 5, 7), number_of(&t, 8, 10)) {
        (Some(y), Some(m), Some(d)) => {
            if 1 <= m && m <= 12 && 1 <= d && d <= month_days(y as u32, m as u32) as u64 {
                Some(midnight_ns(y as u32, m as u32, d as u32))
            } else {
                None
            }
        },
        _ => None,
    }
}

spec fn ten_to(n: nat) -> nat
    decreases n,
{
    if n == 0 {
        1
    } else {
        10 * ten_to((n - 1) as nat)
    }
}

proof fn lemma_number_bound(s: Seq<char>)
    requires
        all_digits(s),
    ensures
        number(s) < ten_to(s.len()),
    decreases s.len(),
{
    if s.len() > 0 {
        assert(is_digit(s[s.len() - 1]));
        assert forall|i: int| 0 <= i < s.len() - 1 implies is_digit(#[trigger] s.drop_last()[i]) by {
            assert(s[i] == s.drop_last()[i]);
        }
        lemma_number_bound(s.drop_last());
    }
}

/// The bound that a typed size sets.
fn size_bound(s: Option<&str>) -> (r: Result<Option<u64>, FilterError>)
    ensures
        match size_limit(text::str_text(s)) {
            Ok(n) => r == Ok::<Option<u64>, FilterError>(n),
            Err(x) => r matches Err(e) && e@ == x,
        },
{
    let Some(s) = s else {
        return Ok(None);
    };
    if trim(s).as_str().is_empty() {
        return Ok(None);
    }
    match parse_size(s) {
        Some(n) => Ok(Some(n)),
        None => Err(FilterError::Size(s.to_owned())),
    }
}

/// The bound that a typed date sets.
fn date_bound(s: Option<&str>) -> (r: Result<Option<i128>, FilterError>)
    ensures
        match date_limit(text::str_text(s)) {
            Ok(n) => r == Ok::<Option<i128>, FilterError>(n),
            Err(x) => r matches Err(e) && e@ == x,
        },
{
    let Some(s) = s else {
        return Ok(None);
    };
    if trim(s).as_str().is_empty() {
        return Ok(None);
    }
    match parse_date(s) {
        Some(n) => Ok(Some(n)),
        None => Err(FilterError::Date(s.to_owned())),
    }
}

// ---------------------------------------------------------------------------
// Laws
// ---------------------------------------------------------------------------

/// A filter without criteria keeps every file of every owner.
pub proof fn empty_filter_keeps_everything(f: scan::SourceModel, owner: Option<Seq<char>>)
    ensures
        keep_all().admits(f),
        keep_all().owner_passes(owner),
{
}

/// An explicit exclude always beats an include: a file with an excluded
/// extension is dropped, whatever extensions are wanted.
pub proof fn exclude_beats_include(
    m: FilterModel,
    f: scan::SourceModel,
    wanted: Option<Seq<Seq<char>>>,
)
    requires
        lower_ext(f.rel) matches Some(e) && lists(m.exclude_ext, e),
    ensures
        !(FilterModel { include_ext: wanted, ..m }).admits(f),
{
}

/// Whether two lists of extensions differ in letter case only.
pub open spec fn same_but_for_case(a: Seq<Seq<char>>, b: Seq<Seq<char>>) -> bool {
    &&& a.len() == b.len()
    &&& forall|i: int|
        0 <= i < a.len() ==> text::lowercase(#[trigger] a[i]) == text::lowercase(#[trigger] b[i])
}

proof fn lemma_case_of_list(a: Seq<Seq<char>>, b: Seq<Seq<char>>, e: Seq<char>)
    requires
        same_but_for_case(a, b),
    ensures
        lists(a, e) == lists(b, e),
{
    if lists(a, e) {
        let i = choose|i: int| 0 <= i < a.len() && text::lowercase(#[trigger] a[i]) == e;
        assert(text::lowercase(b[i]) == e);
    }
    if lists(b, e) {
        let i = choose|i: int| 0 <= i < b.len() && text::lowercase(#[trigger] b[i]) == e;
        assert(text::lowercase(a[i]) == e);
    }
}

/// Extension matching is case-insensitive: neither how the letters of a file's
/// extension are written nor how those of the lists are makes a difference.
pub proof fn extension_case_does_not_matter(
    m: FilterModel,
    n: FilterModel,
    f: scan::SourceModel,
    g: scan::SourceModel,
)
    requires
        f.size == g.size,
        f.mtime_ns == g.mtime_ns,
        f.abs == g.abs,
        lower_ext(f.rel) == lower_ext(g.rel),
        n == (FilterModel { include_ext: n.include_ext, exclude_ext: n.exclude_ext, ..m }),
        same_but_for_case(m.exclude_ext, n.exclude_ext),
        m.include_ext is Some == n.include_ext is Some,
        m.include_ext is Some ==> same_but_for_case(m.include_ext->0, n.include_ext->0),
    ensures
        m.admits(f) == n.admits(g),
{
    if let Some(e) = lower_ext(f.rel) {
        lemma_case_of_list(m.exclude_ext, n.exclude_ext, e);
        if m.include_ext is Some {
            lemma_case_of_list(m.include_ext->0, n.include_ext->0, e);
        }
    }
}

/// Whether a filter is at least as strict as another: its bounds are no wider,
/// it excludes every extension and every path that the other excludes, it
/// wants no extension that the other does not want, and it asks for the same
/// owner where the other asks for one.
pub open spec fn tightens(strict: FilterModel, m: FilterModel) -> bool {
    &&& m.min_size matches Some(a) ==> (strict.min_size matches Some(b) && a <= b)
    &&& m.max_size matches Some(a) ==> (strict.max_size matches Some(b) && b <= a)
    &&& m.newer_than_ns matches Some(a) ==> (strict.newer_than_ns matches Some(b) && a <= b)
    &&& m.older_than_ns matches Some(a) ==> (strict.older_than_ns matches Some(b) && b <= a)
    &&& forall|i: int|
        0 <= i < m.exclude_ext.len() ==> lists(
            strict.exclude_ext,
            text::lowercase(#[trigger] m.exclude_ext[i]),
        )
    &&& m.include_ext matches Some(wanted) ==> (strict.include_ext matches Some(fewer)
        && forall|i: int|
        0 <= i < fewer.len() ==> lists(wanted, text::lowercase(#[trigger] fewer[i])))
    &&& forall|i: int|
        0 <= i < m.exclude_paths.len() ==> strict.exclude_paths.contains(
            #[trigger] m.exclude_paths[i],
        )
    &&& m.owner is Some ==> strict.owner == m.owner
}

/// Tightening a filter only narrows what it keeps: a file that passes the
/// stricter filter passes the other, and so does its owner.
pub proof fn criteria_only_narrow(
    strict: FilterModel,
    m: FilterModel,
    f: scan::SourceModel,
    owner: Option<Seq<char>>,
)
    requires
        tightens(strict, m),
    ensures
        strict.admits(f) ==> m.admits(f),
        strict.owner_passes(owner) ==> m.owner_passes(owner),
{
    if strict.admits(f) {
        if m.path_excluded(f.abs) {
            let i = choose|i: int|
                0 <= i < m.exclude_paths.len() && path::path_starts_with(
                    f.abs,
                    #[trigger] m.exclude_paths[i],
                );
            let j = choose|j: int|
                0 <= j < strict.exclude_paths.len() && strict.exclude_paths[j]
                    == m.exclude_paths[i];
            assert(path::path_starts_with(f.abs, strict.exclude_paths[j]));
        }
        if let Some(e) = lower_ext(f.rel) {
            if lists(m.exclude_ext, e) {
                let i = choose|i: int|
                    0 <= i < m.exclude_ext.len() && text::lowercase(#[trigger] m.exclude_ext[i])
                        == e;
                assert(lists(strict.exclude_ext, text::lowercase(m.exclude_ext[i])));
            }
            if let Some(fewer) = strict.include_ext {
                let i = choose|i: int|
                    0 <= i < fewer.len() && text::lowercase(#[trigger] fewer[i]) == e;
                assert(text::lowercase(fewer[i]) == e);
            }
        }
    }
}

/// Every criterion that is set tightens the filter without it.
pub proof fn setting_a_criterion_tightens(m: FilterModel, path: Seq<char>, ext: Seq<char>)
    ensures
        tightens(m, FilterModel { min_size: None, ..m }),
        tightens(m, FilterModel { max_size: None, ..m }),
        tightens(m, FilterModel { newer_than_ns: None, ..m }),
        tightens(m, FilterModel { older_than_ns: None, ..m }),
        tightens(m, FilterModel { include_ext: None, ..m }),
        tightens(m, FilterModel { owner: None, ..m }),
        tightens(FilterModel { exclude_paths: m.exclude_paths.push(path), ..m }, m),
        tightens(FilterModel { exclude_ext: m.exclude_ext.push(ext), ..m }, m),
{
    let more_paths = m.exclude_paths.push(path);
    let more_exts = m.exclude_ext.push(ext);
    assert forall|i: int| 0 <= i < m.exclude_paths.len() implies more_paths.contains(
        #[trigger] m.exclude_paths[i],
    ) && m.exclude_paths.contains(m.exclude_paths[i]) by {
        assert(more_paths[i] == m.exclude_paths[i]);
    }
    assert forall|i: int| 0 <= i < m.exclude_ext.len() implies lists(
        more_exts,
        text::lowercase(#[trigger] m.exclude_ext[i]),
    ) && lists(m.exclude_ext, text::lowercase(m.exclude_ext[i])) by {
        assert(more_exts[i] == m.exclude_ext[i]);
    }
}

/// Each bound counts on its own: a file passes with it exactly if it passes
/// without it and is within it. The bounds on size and the lower bound on the
/// date are inclusive, the upper bound on the date is not.
pub proof fn each_bound_counts_alone(m: FilterModel, f: scan::SourceModel)
    ensures
        m.min_size matches Some(n) ==> (m.admits(f) <==> (FilterModel { min_size: None, ..m }).admits(
            f,
        ) && f.size >= n),
        m.max_size matches Some(n) ==> (m.admits(f) <==> (FilterModel { max_size: None, ..m }).admits(
            f,
        ) && f.size <= n),
        m.newer_than_ns matches Some(t) ==> (m.admits(f) <==> (FilterModel {
            newer_than_ns: None,
            ..m
        }).admits(f) && f.mtime_ns >= t),
        m.older_than_ns matches Some(t) ==> (m.admits(f) <==> (FilterModel {
            older_than_ns: None,
            ..m
        }).admits(f) && f.mtime_ns < t),
{
    lemma_paths_alike(m, FilterModel { min_size: None, ..m }, f.abs);
    lemma_paths_alike(m, FilterModel { max_size: None, ..m }, f.abs);
    lemma_paths_alike(m, FilterModel { newer_than_ns: None, ..m }, f.abs);
    lemma_paths_alike(m, FilterModel { older_than_ns: None, ..m }, f.abs);
}

proof fn lemma_paths_alike(m: FilterModel, n: FilterModel, abs: Seq<char>)
    requires
        m.exclude_paths == n.exclude_paths,
    ensures
        m.path_excluded(abs) == n.path_excluded(abs),
{
    if m.path_excluded(abs) {
        let i = choose|i: int|
            0 <= i < m.exclude_paths.len() && path::path_starts_with(
                abs,
                #[trigger] m.exclude_paths[i],
            );
        assert(path::path_starts_with(abs, n.exclude_paths[i]));
    }
    if n.path_excluded(abs) {
        let i = choose|i: int|
            0 <= i < n.exclude_paths.len() && path::path_starts_with(
                abs,
                #[trigger] n.exclude_paths[i],
            );
        assert(path::path_starts_with(abs, m.exclude_paths[i]));
    }
}

/// A listed extension counts as a whole. The exclude list drops a file exactly
/// if one of its extensions is, but for letter case, that of the file; the
/// include list keeps a file exactly if one of its extensions is. A file
/// without an extension is on no list.
pub proof fn listed_extensions_count_as_a_whole(m: FilterModel, f: scan::SourceModel)
    ensures
        ({
            let open = FilterModel { exclude_ext: Seq::empty(), ..m };
            let ext = path::extension(f.rel);
            m.admits(f) <==> open.admits(f) && !(ext is Some && exists|i: int|
                0 <= i < m.exclude_ext.len() && text::lowercase(#[trigger] m.exclude_ext[i])
                    == text::lowercase(ext->0))
        }),
        m.include_ext matches Some(wanted) ==> ({
            let open = FilterModel { include_ext: None, ..m };
            let ext = path::extension(f.rel);
            m.admits(f) <==> open.admits(f) && ext is Some && exists|i: int|
                0 <= i < wanted.len() && text::lowercase(#[trigger] wanted[i]) == text::lowercase(
                    ext->0,
                )
        }),
{
    let a = FilterModel { exclude_ext: Seq::empty(), ..m };
    let b = FilterModel { include_ext: None, ..m };
    lemma_paths_alike(m, a, f.abs);
    lemma_paths_alike(m, b, f.abs);
    if let Some(x) = path::extension(f.rel) {
        let e = text::lowercase(x);
        assert(!lists(Seq::empty(), e));
        if lists(m.exclude_ext, e) {
            let i = choose|i: int|
                0 <= i < m.exclude_ext.len() && text::lowercase(#[trigger] m.exclude_ext[i]) == e;
            assert(text::lowercase(m.exclude_ext[i]) == e);
        }
        if let Some(wanted) = m.include_ext {
            if lists(wanted, e) {
                let i = choose|i: int|
                    0 <= i < wanted.len() && text::lowercase(#[trigger] wanted[i]) == e;
                assert(text::lowercase(wanted[i]) == e);
            }
        }
    }
}

/// Excluding one extension keeps every file with another, and wanting one
/// extension drops every file with another.
pub proof fn other_extensions_are_left_alone(f: scan::SourceModel, e: Seq<char>, x: Seq<char>)
    requires
        path::extension(f.rel) == Some(x),
    ensures
        (FilterModel { exclude_ext: seq![e], ..keep_all() }).admits(f) <==> text::lowercase(x)
            != text::lowercase(e),
        (FilterModel { include_ext: Some(seq![e]), ..keep_all() }).admits(f) <==> text::lowercase(x)
            == text::lowercase(e),
{
    let one = FilterModel { exclude_ext: seq![e], ..keep_all() };
    let want = FilterModel { include_ext: Some(seq![e]), ..keep_all() };
    listed_extensions_count_as_a_whole(one, f);
    listed_extensions_count_as_a_whole(want, f);
    empty_filter_keeps_everything(f, None);
    assert((FilterModel { exclude_ext: Seq::empty(), ..one }) == keep_all());
    assert((FilterModel { include_ext: None, ..want }) == keep_all());
    assert(seq![e][0] == e);
}

/// An excluded path drops exactly the files at or below it, and an owner that
/// is asked for keeps exactly the files whose owner it is.
pub proof fn excluded_paths_and_owners_count_alone(
    m: FilterModel,
    f: scan::SourceModel,
    owner: Option<Seq<char>>,
)
    ensures
        m.admits(f) <==> (FilterModel { exclude_paths: Seq::empty(), ..m }).admits(f) && !(exists|
            i: int,
        |
            0 <= i < m.exclude_paths.len() && path::path_starts_with(
                f.abs,
                #[trigger] m.exclude_paths[i],
            )),
        m.owner_passes(owner) <==> m.owner is None || owner == m.owner,
{
    let open = FilterModel { exclude_paths: Seq::empty(), ..m };
    assert(!open.path_excluded(f.abs));
}

proof fn lemma_without_dots(dots: Seq<char>, e: Seq<char>)
    requires
        forall|i: int| 0 <= i < dots.len() ==> #[trigger] dots[i] == '.',
        e.len() > 0 ==> e[0] != '.',
    ensures
        without_dots(dots + e) == e,
    decreases dots.len(),
{
    let s = dots + e;
    if dots.len() > 0 {
        let rest = dots.skip(1);
        assert forall|i: int| 0 <= i < rest.len() implies #[trigger] rest[i] == '.' by {
            assert(rest[i] == dots[i + 1]);
        }
        lemma_without_dots(rest, e);
        assert(s.skip(1) == rest + e);
        assert(s[0] == '.');
    } else {
        assert(s == e);
    }
}

/// Blanks around an extension, dots in front of it and the case of its letters
/// do not count.
pub proof fn extensions_have_one_form(a: Seq<char>, dots: Seq<char>, e: Seq<char>, b: Seq<char>)
    requires
        forall|i: int| 0 <= i < a.len() ==> text::is_space(#[trigger] a[i]),
        forall|i: int| 0 <= i < b.len() ==> text::is_space(#[trigger] b[i]),
        forall|i: int| 0 <= i < dots.len() ==> #[trigger] dots[i] == '.',
        e.len() > 0,
        e[0] != '.',
        !text::is_space(e[0]),
        !text::is_space(e.last()),
    ensures
        normal_ext(a + dots + e + b) == text::lowercase(e),
        normal_exts(seq![a + dots + e + b]) == seq![text::lowercase(e)],
        normal_exts(seq![a + dots]) == Seq::<Seq<char>>::empty(),
{
    let s = dots + e;
    assert(a + dots + e + b == a + s + b);
    assert(s.last() == e.last());
    if dots.len() > 0 {
        assert(s[0] == dots[0]);
    }
    text::trimming_takes_the_blanks_around(a, s, b);
    lemma_without_dots(dots, e);
    let piece = a + dots + e + b;
    reveal_with_fuel(normal_exts, 2);
    assert(seq![piece].drop_last() == Seq::<Seq<char>>::empty());
    assert(seq![piece].last() == piece);
    assert(Seq::<Seq<char>>::empty().push(text::lowercase(e)) == seq![text::lowercase(e)]);
    let none = Seq::<char>::empty();
    assert(dots.len() > 0 ==> dots.last() == dots[dots.len() - 1]);
    text::trimming_takes_the_blanks_around(a, dots, none);
    assert(a + dots + none == a + dots);
    lemma_without_dots(dots, none);
    assert(dots + none == dots);
    assert(seq![a + dots].drop_last() == Seq::<Seq<char>>::empty());
    assert(seq![a + dots].last() == a + dots);
}

/// A list with commas is read piece by piece.
pub proof fn extension_lists_are_read_piece_by_piece(a: Seq<char>, b: Seq<char>)
    ensures
        listed_exts(Some(a + seq![','] + b)) == listed_exts(Some(a)) + listed_exts(Some(b)),
        !a.contains(',') ==> listed_exts(Some(a)) == normal_exts(seq![a]),
        listed_exts(None).len() == 0,
{
    text::split_at_separator(a, b, ',');
    lemma_normal_exts_concat(text::split(a, seq![',']), text::split(b, seq![',']));
    if !a.contains(',') {
        let one = seq![a];
        assert forall|i: int, k: int| 0 <= i < one.len() && 0 <= k < one[i].len() implies
            #[trigger] one[i][k] != ',' by {
            assert(a.contains(a[k]));
        }
        text::split_undoes_join(one, ',');
    }
}

proof fn lemma_normal_exts_concat(a: Seq<Seq<char>>, b: Seq<Seq<char>>)
    ensures
        normal_exts(a + b) == normal_exts(a) + normal_exts(b),
    decreases b.len(),
{
    if b.len() == 0 {
        assert(a + b == a);
        assert(normal_exts(a) + normal_exts(b) == normal_exts(a));
    } else {
        lemma_normal_exts_concat(a, b.drop_last());
        assert((a + b).drop_last() == a + b.drop_last());
        assert((a + b).last() == b.last());
    }
}

proof fn lemma_number_is_value(s: Seq<char>)
    requires
        text::are_digits(s),
    ensures
        number(s) == text::digits_value(s),
        all_digits(s),
    decreases s.len(),
{
    assert forall|i: int| 0 <= i < s.len() implies is_digit(#[trigger] s[i]) by {
        assert('0' <= s[i] <= '9');
    }
    if s.len() > 0 {
        let front = s.drop_last();
        assert forall|i: int| 0 <= i < front.len() implies '0' <= #[trigger] front[i]
            <= '9' by {
            assert(front[i] == s[i]);
        }
        lemma_number_is_value(front);
        assert(s.last() == s[s.len() - 1]);
    }
}

/// 1024 to the power `k`.
pub open spec fn kilo(k: int) -> int
    decreases k,
{
    if k <= 0 {
        1
    } else {
        1024 * kilo(k - 1)
    }
}

/// A size is a number and a unit, and stands for their product. The units are
/// bytes and the powers of 1024 named by the letters k, m, g and t, in either
/// case and with or without a b behind. Blanks around and between do not
/// count. A size beyond 64 bits is none.
pub proof fn sizes_are_numbers_of_units(
    a: Seq<char>,
    n: nat,
    mid: Seq<char>,
    unit: Seq<char>,
    b: Seq<char>,
    k: int,
)
    requires
        forall|i: int| 0 <= i < a.len() ==> text::is_space(#[trigger] a[i]),
        forall|i: int| 0 <= i < mid.len() ==> text::is_space(#[trigger] mid[i]),
        forall|i: int| 0 <= i < b.len() ==> text::is_space(#[trigger] b[i]),
        unit.len() == 0 ==> mid.len() == 0,
        0 <= k <= 4,
        ({
            let letter = if k == 0 {
                Seq::<char>::empty()
            } else {
                seq![seq!['k', 'm', 'g', 't'][k - 1]]
            };
            text::ascii_lower(unit) == letter || text::ascii_lower(unit) == letter + seq!['b']
        }),
    ensures
        size_of_text(a + text::decimal(n) + mid + unit + b) == if n * kilo(k) <= u64::MAX {
            Some((n * kilo(k)) as u64)
        } else {
            None
        },
{
    let d = text::decimal(n);
    let low = text::ascii_lower(unit);
    let t = d + mid + unit;
    let run = d.len() as int;
    text::decimal_reads_back(n);
    lemma_number_is_value(d);
    reveal_with_fuel(kilo, 6);
    reveal_strlit("");
    reveal_strlit("b");
    reveal_strlit("k");
    reveal_strlit("kb");
    reveal_strlit("m");
    reveal_strlit("mb");
    reveal_strlit("g");
    reveal_strlit("gb");
    reveal_strlit("t");
    reveal_strlit("tb");
    assert(unit.len() == low.len());
    assert(unit.len() <= 2);
    assert forall|i: int| 0 <= i < unit.len() implies !text::is_space(#[trigger] unit[i])
        && !is_digit(unit[i]) by {
        assert(low[i] == text::ascii_lower_char(unit[i]));
        let c = low[i];
        assert(c == 'b' || c == 'k' || c == 'm' || c == 'g' || c == 't');
    }
    assert(is_digit(d[0]));
    assert(!text::is_space(t[0])) by {
        assert(t[0] == d[0]);
    }
    assert(!text::is_space(t.last())) by {
        if unit.len() > 0 {
            assert(t.last() == unit[unit.len() - 1]);
        } else {
            assert(t.last() == d[d.len() - 1]);
            assert(is_digit(d[d.len() - 1]));
        }
    }
    text::trimming_takes_the_blanks_around(a, t, b);
    assert(a + d + mid + unit + b == a + t + b);
    assert(t.take(run) == d);
    if run < t.len() {
        assert(!is_digit(t[run])) by {
            if mid.len() > 0 {
                assert(t[run] == mid[0]);
            } else {
                assert(t[run] == unit[0]);
            }
        }
    }
    lemma_digit_run(t, run);
    assert(t.skip(run) == mid + unit + Seq::<char>::empty());
    text::trimming_takes_the_blanks_around(mid, unit, Seq::empty());
    assert(text::trimmed(t.skip(run)) == unit);
    assert(low == ""@ || low == "b"@ || low == "k"@ || low == "kb"@ || low == "m"@ || low == "mb"@
        || low == "g"@ || low == "gb"@ || low == "t"@ || low == "tb"@);
    if k == 0 {
        assert(low.len() <= 1);
    } else {
        assert(low.len() >= 1 && low[0] == seq!['k', 'm', 'g', 't'][k - 1]);
    }
    assert(unit_bytes(unit) == Some(kilo(k) as nat)) by {
        if low.len() == 0 {
            assert(low == ""@);
        } else if low.len() == 1 {
            assert("k"@[0] == 'k' && "m"@[0] == 'm' && "g"@[0] == 'g' && "t"@[0] == 't' && "b"@[0]
                == 'b');
            assert(low == seq![low[0]]);
        } else {
            assert("kb"@[0] == 'k' && "mb"@[0] == 'm' && "gb"@[0] == 'g' && "tb"@[0] == 't');
        }
    }
}

/// What does not begin with a digit is no size.
pub proof fn a_size_begins_with_a_digit(s: Seq<char>)
    requires
        size_of_text(s) is Some,
    ensures
        text::trimmed(s).len() > 0,
        48 <= text::trimmed(s)[0] as u32 <= 57,
{
}

/// A date with a year of four digits, a month and a day of two stands for an
/// instant on that date, at midnight; there is none where there is no such
/// date. Blanks around it do not count.
pub proof fn dates_stand_for_their_midnight(
    a: Seq<char>,
    y: nat,
    m: nat,
    d: nat,
    b: Seq<char>,
)
    requires
        forall|i: int| 0 <= i < a.len() ==> text::is_space(#[trigger] a[i]),
        forall|i: int| 0 <= i < b.len() ==> text::is_space(#[trigger] b[i]),
        y < 10_000,
        m < 100,
        d < 100,
    ensures
        ({
            let r = instant_of_text(
                a + (text::zero_padded(text::decimal(y), 4) + seq!['-'] + text::zero_padded(
                    text::decimal(m),
                    2,
                ) + seq!['-'] + text::zero_padded(text::decimal(d), 2)) + b,
            );
            &&& r is Some <==> dates::is_date(y as int, m as int, d as int)
            &&& r matches Some(ns) ==> dates::falls_on(ns as int, y as int, m as int, d as int)
                && ns % 86_400_000_000_000 == 0
        }),
{
    let ys = text::zero_padded(text::decimal(y), 4);
    let ms = text::zero_padded(text::decimal(m), 2);
    let ds = text::zero_padded(text::decimal(d), 2);
    text::padding_keeps_the_number(y, 4);
    text::padding_keeps_the_number(m, 2);
    text::padding_keeps_the_number(d, 2);
    lemma_number_is_value(ys);
    lemma_number_is_value(ms);
    lemma_number_is_value(ds);
    let t = ys + seq!['-'] + ms + seq!['-'] + ds;
    assert(t.len() == 10);
    assert(t[4] == '-' && t[7] == '-');
    assert(t.take(4) == ys);
    assert(t.subrange(5, 7) == ms);
    assert(t.subrange(8, 10) == ds);
    assert(is_digit(ys[0]) && is_digit(ds[1]));
    assert(t[0] == ys[0] && t.last() == ds[1]);
    text::trimming_takes_the_blanks_around(a, t, b);
    if dates::is_date(y as int, m as int, d as int) {
        let n = dates::day_number(y as int, m as int, d as int);
        dates::day_numbers_are_bounded(y as int, m as int, d as int);
        dates::midnight_falls_on_its_date(y as int, m as int, d as int);
        assert(n * dates::DAY_NS == n * 86_400_000_000_000);
    }
}

/// What is not ten characters long, but for blanks around, is no date.
pub proof fn a_date_has_ten_characters(s: Seq<char>)
    requires
        instant_of_text(s) is Some,
    ensures
        text::trimmed(s).len() == 10,
        text::trimmed(s)[4] == '-',
        text::trimmed(s)[7] == '-',
{
}

/// What is typed sets the bound that it is typed for and no other: a blank
/// field sets none, any other sets what it stands for, and a field that stands
/// for nothing makes no filter.
pub proof fn typed_fields_set_their_own_bounds(
    inc: Option<Seq<char>>,
    exc: Option<Seq<char>>,
    min: Option<Seq<char>>,
    max: Option<Seq<char>>,
    newer: Option<Seq<char>>,
    older: Option<Seq<char>>,
)
    ensures
        ({
            let typed = |s: Option<Seq<char>>| s is Some && text::trimmed(s->0).len() > 0;
            let r = built(inc, exc, min, max, newer, older);
            &&& r is Ok <==> (typed(min) ==> size_of_text(min->0) is Some) && (typed(max)
                ==> size_of_text(max->0) is Some) && (typed(newer) ==> instant_of_text(newer->0)
                is Some) && (typed(older) ==> instant_of_text(older->0) is Some)
            &&& r matches Ok(m) ==> {
                &&& m.min_size == if typed(min) {
                    size_of_text(min->0)
                } else {
                    None
                }
                &&& m.max_size == if typed(max) {
                    size_of_text(max->0)
                } else {
                    None
                }
                &&& m.newer_than_ns == if typed(newer) {
                    instant_of_text(newer->0)
                } else {
                    None
                }
                &&& m.older_than_ns == if typed(older) {
                    instant_of_text(older->0)
                } else {
                    None
                }
                &&& m.exclude_ext == listed_exts(exc)
                &&& m.include_ext is None <==> listed_exts(inc).len() == 0
                &&& m.include_ext matches Some(w) ==> w == listed_exts(inc)
                &&& m.exclude_paths.len() == 0
                &&& m.owner is None
            }
        }),
{
}

/// A filter stands for its fields, list by list and bound by bound.
pub proof fn filters_stand_for_their_fields(w: Filter, i: int)
    ensures
        w@.min_size == w.min_size,
        w@.max_size == w.max_size,
        w@.newer_than_ns == w.newer_than_ns,
        w@.older_than_ns == w.older_than_ns,
        w@.include_ext is Some <==> w.include_ext is Some,
        w.include_ext matches Some(v) ==> w@.include_ext->0.len() == v@.len() && (0 <= i < v@.len()
            ==> w@.include_ext->0[i] == v@[i]@),
        w@.exclude_ext.len() == w.exclude_ext@.len(),
        0 <= i < w.exclude_ext@.len() ==> w@.exclude_ext[i] == w.exclude_ext@[i]@,
        w@.exclude_paths.len() == w.exclude_paths@.len(),
        0 <= i < w.exclude_paths@.len() ==> w@.exclude_paths[i] == w.exclude_paths@[i].text@,
        w@.owner is Some <==> w.owner is Some,
        w.owner matches Some(o) ==> w@.owner == Some(o@),
{
}

/// The message for an input that makes no filter quotes that input and says
/// what would have been right.
pub proof fn filter_messages_quote_the_input(s: Seq<char>)
    ensures
        filter_message(FilterFailure::Size(s)) == "invalid size '"@ + s
            + "' (expected e.g. 10MB, 500K)"@,
        filter_message(FilterFailure::Date(s)) == "invalid date '"@ + s
            + "' (expected YYYY-MM-DD)"@,
{
}

/// The first field that stands for nothing is the one that is complained
/// about, with what was typed in it: the sizes come before the dates, and the
/// lower bound before the upper.
pub proof fn the_first_bad_field_is_named(
    inc: Option<Seq<char>>,
    exc: Option<Seq<char>>,
    min: Option<Seq<char>>,
    max: Option<Seq<char>>,
    newer: Option<Seq<char>>,
    older: Option<Seq<char>>,
)
    ensures
        ({
            let bad_size = |s: Option<Seq<char>>|
                s is Some && text::trimmed(s->0).len() > 0 && size_of_text(s->0) is None;
            let bad_date = |s: Option<Seq<char>>|
                s is Some && text::trimmed(s->0).len() > 0 && instant_of_text(s->0) is None;
            let r = built(inc, exc, min, max, newer, older);
            let fail = |f: FilterFailure| r == Err::<FilterModel, FilterFailure>(f);
            &&& bad_size(min) ==> fail(FilterFailure::Size(min->0))
            &&& !bad_size(min) && bad_size(max) ==> fail(FilterFailure::Size(max->0))
            &&& !bad_size(min) && !bad_size(max) && bad_date(newer) ==> fail(
                FilterFailure::Date(newer->0),
            )
            &&& !bad_size(min) && !bad_size(max) && !bad_date(newer) && bad_date(older) ==> fail(
                FilterFailure::Date(older->0),
            )
        }),
{
}

/// A result is as expected exactly if both are filters with the same criteria,
/// or both are failures that say the same.
pub proof fn results_agree_in_kind_and_content(
    f: Filter,
    m: FilterModel,
    s: String,
    t: Seq<char>,
)
    ensures
        outcome_is(Ok(f), Ok(m)) <==> f@ == m,
        outcome_is(Err(FilterError::Size(s)), Err(FilterFailure::Size(t))) <==> s@ == t,
        outcome_is(Err(FilterError::Date(s)), Err(FilterFailure::Date(t))) <==> s@ == t,
        !outcome_is(Err(FilterError::Size(s)), Err(FilterFailure::Date(t))),
        !outcome_is(Err(FilterError::Date(s)), Err(FilterFailure::Size(t))),
        !outcome_is(Ok(f), Err(FilterFailure::Size(t))),
        !outcome_is(Ok(f), Err(FilterFailure::Date(t))),
        !outcome_is(Err(FilterError::Size(s)), Ok(m)),
        !outcome_is(Err(FilterError::Date(s)), Ok(m)),
{
}

proof fn lemma_run_of_digits(s: Seq<char>)
    ensures
        digit_run(s) <= s.len(),
        text::are_digits(s.take(digit_run(s) as int)),
        digit_run(s) < s.len() ==> !('0' <= s[digit_run(s) as int] <= '9'),
    decreases s.len(),
{
    if s.len() > 0 && is_digit(s[0]) {
        let rest = s.skip(1);
        lemma_run_of_digits(rest);
        let k = digit_run(rest) as int;
        assert forall|i: int| 0 <= i < k + 1 implies '0' <= #[trigger] s.take(k + 1)[i]
            <= '9' by {
            if i > 0 {
                assert(rest.take(k)[i - 1] == s.take(k + 1)[i]);
            }
        }
    }
}

/// Nothing else is a size: what is one begins with digits, behind them stands
/// one of the units, and it is the product of the two.
pub proof fn only_numbers_of_units_are_sizes(s: Seq<char>) -> (parts: (int, int))
    requires
        size_of_text(s) is Some,
    ensures
        ({
            let (run, k) = parts;
            let t = text::trimmed(s);
            let unit = text::ascii_lower(text::trimmed(t.skip(run)));
            let letter = if k == 0 {
                Seq::<char>::empty()
            } else {
                seq![seq!['k', 'm', 'g', 't'][k - 1]]
            };
            &&& 0 < run <= t.len()
            &&& text::are_digits(t.take(run))
            &&& 0 <= k <= 4
            &&& unit == letter || unit == letter + seq!['b']
            &&& size_of_text(s)->0 == text::digits_value(t.take(run)) * kilo(k)
        }),
{
    let t = text::trimmed(s);
    let run = digit_run(t) as int;
    let unit = text::ascii_lower(text::trimmed(t.skip(run)));
    lemma_run_of_digits(t);
    lemma_number_is_value(t.take(run));
    reveal_with_fuel(kilo, 6);
    reveal_strlit("");
    reveal_strlit("b");
    reveal_strlit("k");
    reveal_strlit("kb");
    reveal_strlit("m");
    reveal_strlit("mb");
    reveal_strlit("g");
    reveal_strlit("gb");
    reveal_strlit("t");
    reveal_strlit("tb");
    let k: int = if unit == ""@ || unit == "b"@ {
        0
    } else if unit == "k"@ || unit == "kb"@ {
        1
    } else if unit == "m"@ || unit == "mb"@ {
        2
    } else if unit == "g"@ || unit == "gb"@ {
        3
    } else {
        4
    };
    let letter = if k == 0 {
        Seq::<char>::empty()
    } else {
        seq![seq!['k', 'm', 'g', 't'][k - 1]]
    };
    assert(unit =~= letter || unit =~= letter + seq!['b']);
    (run, k)
}

proof fn lemma_zero_in_front(s: Seq<char>)
    ensures
        number(seq!['0'] + s) == number(s),
    decreases s.len(),
{
    let z = seq!['0'];
    reveal_with_fuel(number, 2);
    if s.len() == 0 {
        assert(z + s == z);
        assert(z.drop_last() == s);
    } else {
        assert((z + s).drop_last() == z + s.drop_last());
        lemma_zero_in_front(s.drop_last());
    }
}

proof fn lemma_trimmed_behind_zero(s: Seq<char>)
    requires
        s.len() > 0,
        '0' <= s[0] <= '9',
    ensures
        text::trimmed(s).len() > 0,
        text::trimmed(seq!['0'] + s) == seq!['0'] + text::trimmed(s),
{
    let z = seq!['0'];
    let t = text::trimmed(s);
    let none = Seq::<char>::empty();
    let (a, b) = text::trimming_loses_only_blanks(s);
    if a.len() > 0 {
        assert(s[0] == a[0]);
        assert(text::is_space(a[0]));
    }
    if t.len() == 0 {
        assert(s[0] == b[0]);
        assert(text::is_space(b[0]));
    }
    assert(z + s =~= none + (z + t) + b);
    assert((z + t).last() == t.last());
    assert((z + t)[0] == '0');
    assert(!text::is_space('0'));
    text::trimming_takes_the_blanks_around(none, z + t, b);
}

proof fn lemma_run_behind_zero(t: Seq<char>)
    ensures
        ({
            let zt = seq!['0'] + t;
            let k = digit_run(t) as int;
            &&& digit_run(zt) == k + 1
            &&& number(zt.take(k + 1)) == number(t.take(k))
            &&& zt.skip(k + 1) == t.skip(k)
        }),
{
    let z = seq!['0'];
    let zt = z + t;
    let k = digit_run(t) as int;
    lemma_run_of_digits(t);
    assert(zt[0] == '0');
    assert(zt.skip(1) =~= t);
    assert(zt.take(k + 1) =~= z + t.take(k));
    assert(zt.skip(k + 1) =~= t.skip(k));
    lemma_zero_in_front(t.take(k));
}

/// Zeros in front of a size that has a number do not count.
pub proof fn zeros_in_front_of_a_size_do_not_count(s: Seq<char>)
    requires
        s.len() > 0,
        '0' <= s[0] <= '9',
    ensures
        size_of_text(seq!['0'] + s) == size_of_text(s),
{
    let t = text::trimmed(s);
    lemma_trimmed_behind_zero(s);
    lemma_run_behind_zero(t);
    assert(t[0] == s[0]) by {
        let (a, b) = text::trimming_loses_only_blanks(s);
        if a.len() > 0 {
            assert(s[0] == a[0]);
            assert(text::is_space(a[0]));
        }
    }
    assert(is_digit(t[0]));
    assert(digit_run(t) > 0);
}

} // verus!
