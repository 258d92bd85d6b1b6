//! Destination path templating for rename-on-ingest and folder structuring.
//!
//! A template is a string with `{token}` placeholders, e.g.
//! `"{project}/{YYYY}-{MM}-{DD}/{filename}"`. Rendering produces a relative
//! path that is mirrored under each destination root. Unknown tokens are left
//! literally so typos are visible. The result is sanitized: `.`/`..` and any
//! absolute prefix are stripped, so a template can never escape the dest root.
//!
//! This module knows no calendar: callers pass the fields of the dates.

use crate::path;
use crate::path::{forward_slash, FilePath};
use crate::text;
use crate::text::{
    from_chars, join_text, padded_text, same_text, signed_padded_text, split_text, to_chars, trim,
};
use vstd::prelude::*;
use vstd::string::*;

verus! {

/// Inputs available to a template for one file.
pub struct RenderCtx<'a> {
    /// Original path relative to the source root.
    pub rel: &'a FilePath,
    /// User-supplied project name (may be empty).
    pub project: &'a str,
    /// Job date (when the harvest started).
    pub job_year: i32,
    pub job_month: u8,
    pub job_day: u8,
    /// Source file's modification date.
    pub file_year: i32,
    pub file_month: u8,
    pub file_day: u8,
}

/// What a [`RenderCtx`] stands for. A date is year, month and day.
pub struct RenderModel {
    pub rel: Seq<char>,
    pub project: Seq<char>,
    pub job: (int, int, int),
    pub file: (int, int, int),
}

impl<'a> View for RenderCtx<'a> {
    type V = RenderModel;

    open spec fn view(&self) -> RenderModel {
        RenderModel {
            rel: self.rel@,
            project: self.project@,
            job: (self.job_year as int, self.job_month as int, self.job_day as int),
            file: (self.file_year as int, self.file_month as int, self.file_day as int),
        }
    }
}

/// A year with at least four characters.
pub open spec fn long_year(y: int) -> Seq<char> {
    text::signed_padded(y, 4)
}

/// The last two digits of a year.
pub open spec fn short_year(y: int) -> Seq<char> {
    let last = if y >= 0 {
        y % 100
    } else {
        (-y) % 100
    };
    text::zero_padded(text::decimal(last as nat), 2)
}

/// A month or a day with at least two digits.
pub open spec fn two_digits(n: int) -> Seq<char> {
    text::zero_padded(text::decimal(n as nat), 2)
}

impl RenderModel {
    /// What a token stands for; `None` for an unknown token, and for the name
    /// of a file that has none.
    pub open spec fn value(self, token: Seq<char>) -> Option<Seq<char>> {
        if token == "filename"@ {
            path::file_name(self.rel)
        } else if token == "name"@ {
            path::file_stem(self.rel)
        } else if token == "ext"@ {
            match path::extension(self.rel) {
                Some(e) => Some(e),
                None => Some(Seq::<char>::empty()),
            }
        } else if token == "reldir"@ {
            Some(text::join(path::parent_components(self.rel), path::slash()))
        } else if token == "relpath"@ {
            Some(path::slashed(self.rel))
        } else if token == "project"@ {
            Some(self.project)
        } else if token == "YYYY"@ {
            Some(long_year(self.job.0))
        } else if token == "YY"@ {
            Some(short_year(self.job.0))
        } else if token == "MM"@ {
            Some(two_digits(self.job.1))
        } else if token == "DD"@ {
            Some(two_digits(self.job.2))
        } else if token == "fYYYY"@ {
            Some(long_year(self.file.0))
        } else if token == "fYY"@ {
            Some(short_year(self.file.0))
        } else if token == "fMM"@ {
            Some(two_digits(self.file.1))
        } else if token == "fDD"@ {
            Some(two_digits(self.file.2))
        } else {
            None
        }
    }
}

/// The position of the first `c` in `s` at or after `from`; the length of `s`
/// if there is none.
pub open spec fn next_index(s: Seq<char>, c: char, from: int) -> int
    decreases s.len() - from,
{
    if from >= s.len() || s[from] == c {
        if from >= s.len() {
            s.len() as int
        } else {
            from
        }
    } else {
        next_index(s, c, from + 1)
    }
}

/// The template from position `from` on with each `{token}` replaced by its
/// value. A token without a value stays as it is, braces included, and so does
/// everything from a `{` that is never closed.
pub open spec fn filled_from(t: Seq<char>, ctx: RenderModel, from: int) -> Seq<char>
    decreases t.len() - from,
    when 0 <= from <= t.len()
{
    let open = next_index(t, '{', from);
    let close = next_index(t, '}', open);
    if open < from || close < open || close >= t.len() {
        t.skip(from)
    } else {
        t.subrange(from, open) + (match ctx.value(t.subrange(open + 1, close)) {
            Some(v) => v,
            None => t.subrange(open, close + 1),
        }) + filled_from(t, ctx, close + 1)
    }
}

/// The template with each `{token}` replaced by its value.
pub open spec fn filled(t: Seq<char>, ctx: RenderModel) -> Seq<char> {
    filled_from(t, ctx, 0)
}

/// The separators of a rendered template.
pub open spec fn separators() -> Seq<char> {
    seq!['/', '\\']
}

/// Whether a trimmed piece is kept: empties and traversal components are not.
pub open spec fn is_kept(part: Seq<char>) -> bool {
    part.len() > 0 && part != path::dot() && part != path::dot_dot()
}

/// The pieces, trimmed, that are kept.
pub open spec fn kept(pieces: Seq<Seq<char>>) -> Seq<Seq<char>>
    decreases pieces.len(),
{
    if pieces.len() == 0 {
        Seq::<Seq<char>>::empty()
    } else if is_kept(text::trimmed(pieces.last())) {
        kept(pieces.drop_last()).push(text::trimmed(pieces.last()))
    } else {
        kept(pieces.drop_last())
    }
}

/// The components of a rendered path.
pub open spec fn rendered_parts(t: Seq<char>, ctx: RenderModel) -> Seq<Seq<char>> {
    kept(text::split(filled(t, ctx), separators()))
}

/// The path that a template gives.
pub open spec fn rendered(t: Seq<char>, ctx: RenderModel) -> Seq<char> {
    text::join(rendered_parts(t, ctx), path::slash())
}

/// The last two digits of a year.
fn short_year_text(y: i32) -> (r: String)
    ensures
        r@ == short_year(y as int),
{
    let wide: i64 = y as i64;
    let last: i64 = if wide >= 0 {
        wide % 100
    } else {
        (-wide) % 100
    };
    padded_text(last as u64, 2)
}

impl<'a> RenderCtx<'a> {
    /// What a token stands for.
    pub fn lookup(&self, token: &str) -> (r: Option<String>)
        ensures
            r is Some <==> self@.value(token@) is Some,
            r matches Some(v) ==> v@ == self@.value(token@)->0,
    {
        if same_text(token, "filename") {
            self.rel.file_name()
        } else if same_text(token, "name") {
            self.rel.file_stem()
        } else if same_text(token, "ext") {
            match self.rel.extension() {
                Some(e) => Some(e),
                None => Some(String::new()),
            }
        } else if same_text(token, "reldir") {
            Some(self.rel.parent_slashed())
        } else if same_text(token, "relpath") {
            Some(forward_slash(self.rel))
        } else if same_text(token, "project") {
            Some(self.project.to_owned())
        } else if same_text(token, "YYYY") {
            Some(signed_padded_text(self.job_year, 4))
        } else if same_text(token, "YY") {
            Some(short_year_text(self.job_year))
        } else if same_text(token, "MM") {
            Some(padded_text(self.job_month as u64, 2))
        } else if same_text(token, "DD") {
            Some(padded_text(self.job_day as u64, 2))
        } else if same_text(token, "fYYYY") {
            Some(signed_padded_text(self.file_year, 4))
        } else if same_text(token, "fYY") {
            Some(short_year_text(self.file_year))
        } else if same_text(token, "fMM") {
            Some(padded_text(self.file_month as u64, 2))
        } else if same_text(token, "fDD") {
            Some(padded_text(self.file_day as u64, 2))
        } else {
            None
        }
    }
}

/// The position of the first `c` at or after `from`; the length if there is
/// none.
fn position_from(chars: &Vec<char>, c: char, from: usize) -> (r: usize)
    requires
        from <= chars@.len(),
    ensures
        r == next_index(chars@, c, from as int),
        from <= r <= chars@.len(),
{
    let mut i: usize = from;
    while i < chars.len() && chars[i] != c
        invariant
            from <= i <= chars@.len(),
            next_index(chars@, c, i as int) == next_index(chars@, c, from as int),
        decreases chars@.len() - i,
    {
        i += 1;
    }
    i
}

/// Substitutes `{token}` placeholders. Unknown tokens are preserved verbatim.
pub fn substitute(template: &str, ctx: &RenderCtx) -> (r: String)
    ensures
        r@ == filled(template@, ctx@),
{
    let t = to_chars(template);
    let n = t.len();
    let mut out = String::new();
    let mut from: usize = 0;
    assert(out@ + filled_from(t@, ctx@, 0) == filled(t@, ctx@));
    loop
        invariant_except_break
            out@ + filled_from(t@, ctx@, from as int) == filled(t@, ctx@),
        invariant
            t@ == template@,
            n == t@.len(),
            from <= n,
        ensures
            out@ == filled(t@, ctx@),
        decreases n - from,
    {
        let open = position_from(&t, '{', from);
        let close = position_from(&t, '}', open);
        let ghost before = out@;
        if close >= n {
            out.append(from_chars(&t, from, n).as_str());
            assert(t@.subrange(from as int, n as int) == t@.skip(from as int));
            break;
        }
        out.append(from_chars(&t, from, open).as_str());
        proof {
            lemma_next_index(t@, '{', from as int);
            lemma_next_index(t@, '}', open as int);
            assert(t@[open as int] == '{' && t@[close as int] == '}');
        }
        let token = from_chars(&t, open + 1, close);
        let ghost piece;
        match ctx.lookup(token.as_str()) {
            Some(value) => {
                out.append(value.as_str());
                proof {
                    piece = value@;
                }
            },
            None => {
                out.append(from_chars(&t, open, close + 1).as_str());
                proof {
                    piece = t@.subrange(open as int, close + 1);
                }
            },
        }
        proof {
            let head = t@.subrange(from as int, open as int);
            let rest = filled_from(t@, ctx@, close + 1);
            assert(out@ == before + head + piece);
            assert(before + (head + piece + rest) == before + head + piece + rest);
        }
        from = close + 1;
    }
    out
}

proof fn lemma_next_index(s: Seq<char>, c: char, from: int)
    requires
        0 <= from <= s.len(),
    ensures
        from <= next_index(s, c, from) <= s.len(),
        next_index(s, c, from) < s.len() ==> s[next_index(s, c, from)] == c,
        forall|i: int| from <= i < next_index(s, c, from) ==> s[i] != c,
    decreases s.len() - from,
{
    if from < s.len() && s[from] != c {
        lemma_next_index(s, c, from + 1);
    }
}

/// Renders a template to a sanitized relative destination path.
pub fn render(template: &str, ctx: &RenderCtx) -> (r: FilePath)
    ensures
        r@ == rendered(template@, ctx@),
{
    let all = substitute(template, ctx);
    let mut seps: Vec<char> = Vec::new();
    seps.push('/');
    seps.push('\\');
    assert(seps@ == separators());
    let pieces = split_text(all.as_str(), &seps);
    let ghost split = text::split(all@, separators());
    let mut parts: Vec<String> = Vec::new();
    let mut i: usize = 0;
    proof {
        reveal_strlit(".");
        reveal_strlit("..");
        reveal_strlit("/");
        assert("."@ == path::dot());
        assert(".."@ == path::dot_dot());
        assert("/"@ == path::slash());
        assert(split.take(0) == Seq::<Seq<char>>::empty());
        assert(text::texts(parts@) == kept(split.take(0)));
    }
    while i < pieces.len()
        invariant
            "."@ == path::dot(),
            ".."@ == path::dot_dot(),
            split == text::texts(pieces@),
            i <= pieces@.len(),
            text::texts(parts@) == kept(split.take(i as int)),
        decreases pieces@.len() - i,
    {
        assert(split.take(i + 1).drop_last() == split.take(i as int));
        assert(split.take(i + 1).last() == pieces@[i as int]@);
        let ghost before = text::texts(parts@);
        let part = trim(pieces[i].as_str());
        if !part.as_str().is_empty() && !same_text(part.as_str(), ".") && !same_text(
            part.as_str(),
            "..",
        ) {
            let ghost model = part@;
            parts.push(part);
            assert(text::texts(parts@) == before.push(model));
        }
        i += 1;
    }
    assert(split.take(split.len() as int) == split);
    FilePath { text: join_text(&parts, "/") }
}

// ---------------------------------------------------------------------------
// Laws
// ---------------------------------------------------------------------------

proof fn lemma_trim_start_within(s: Seq<char>)
    ensures
        forall|i: int|
            0 <= i < text::trim_start(s).len() ==> s.contains(#[trigger] text::trim_start(s)[i]),
    decreases s.len(),
{
    let r = text::trim_start(s);
    if s.len() > 0 && text::is_space(s[0]) {
        lemma_trim_start_within(s.skip(1));
        assert forall|i: int| 0 <= i < r.len() implies s.contains(#[trigger] r[i]) by {
            assert(s.skip(1).contains(text::trim_start(s.skip(1))[i]));
            let k = choose|k: int| 0 <= k < s.skip(1).len() && s.skip(1)[k] == r[i];
            assert(s[k + 1] == r[i]);
        }
    }
}

proof fn lemma_trim_end_within(s: Seq<char>)
    ensures
        forall|i: int|
            0 <= i < text::trim_end(s).len() ==> s.contains(#[trigger] text::trim_end(s)[i]),
    decreases s.len(),
{
    let r = text::trim_end(s);
    if s.len() > 0 && text::is_space(s.last()) {
        lemma_trim_end_within(s.drop_last());
        assert forall|i: int| 0 <= i < r.len() implies s.contains(#[trigger] r[i]) by {
            assert(s.drop_last().contains(text::trim_end(s.drop_last())[i]));
            let k = choose|k: int| 0 <= k < s.drop_last().len() && s.drop_last()[k] == r[i];
            assert(s[k] == r[i]);
        }
    }
}

proof fn lemma_trimmed_within(s: Seq<char>, c: char)
    requires
        !s.contains(c),
    ensures
        !text::trimmed(s).contains(c),
{
    let r = text::trimmed(s);
    if r.contains(c) {
        let i = choose|i: int| 0 <= i < r.len() && r[i] == c;
        lemma_trim_end_within(text::trim_start(s));
        assert(text::trim_start(s).contains(r[i]));
        let k = choose|k: int|
            0 <= k < text::trim_start(s).len() && text::trim_start(s)[k] == r[i];
        lemma_trim_start_within(s);
        assert(s.contains(text::trim_start(s)[k]));
    }
}

proof fn lemma_kept_parts(pieces: Seq<Seq<char>>)
    requires
        forall|i: int| 0 <= i < pieces.len() ==> !(#[trigger] pieces[i]).contains('/'),
        forall|i: int| 0 <= i < pieces.len() ==> !(#[trigger] pieces[i]).contains('\\'),
    ensures
        forall|i: int|
            0 <= i < kept(pieces).len() ==> is_kept(#[trigger] kept(pieces)[i]) && !kept(
                pieces,
            )[i].contains('/') && !kept(pieces)[i].contains('\\'),
    decreases pieces.len(),
{
    if pieces.len() > 0 {
        let front = pieces.drop_last();
        assert forall|i: int| 0 <= i < front.len() implies !(#[trigger] front[i]).contains('/')
            && !front[i].contains('\\') by {
            assert(pieces[i] == front[i]);
        }
        lemma_kept_parts(front);
        assert(pieces.last() == pieces[pieces.len() - 1]);
        lemma_trimmed_within(pieces.last(), '/');
        lemma_trimmed_within(pieces.last(), '\\');
        let all = kept(pieces);
        assert forall|i: int| 0 <= i < all.len() implies is_kept(#[trigger] all[i])
            && !all[i].contains('/') && !all[i].contains('\\') by {
            if i < kept(front).len() {
                assert(all[i] == kept(front)[i]);
            }
        }
    }
}

/// Every component of a rendered path is a name: it is not empty, not `.` and
/// not `..`, and it holds no separator.
pub proof fn rendered_parts_are_names(t: Seq<char>, ctx: RenderModel)
    ensures
        forall|i: int|
            0 <= i < rendered_parts(t, ctx).len() ==> is_kept(
                #[trigger] rendered_parts(t, ctx)[i],
            ) && !rendered_parts(t, ctx)[i].contains('/') && !rendered_parts(t, ctx)[i].contains(
                '\\',
            ),
{
    let all = filled(t, ctx);
    let pieces = text::split(all, separators());
    text::split_pieces_hold_no_separator(all, separators());
    assert(separators()[0] == '/' && separators()[1] == '\\');
    assert(separators().contains('/') && separators().contains('\\'));
    assert forall|i: int| 0 <= i < pieces.len() implies !(#[trigger] pieces[i]).contains('/')
        && !pieces[i].contains('\\') by {
        if pieces[i].contains('/') {
            let k = choose|k: int| 0 <= k < pieces[i].len() && pieces[i][k] == '/';
            assert(!separators().contains(pieces[i][k]));
        }
        if pieces[i].contains('\\') {
            let k = choose|k: int| 0 <= k < pieces[i].len() && pieces[i][k] == '\\';
            assert(!separators().contains(pieces[i][k]));
        }
    }
    lemma_kept_parts(pieces);
}

/// A template can never escape the destination root: what it renders to, seen
/// from any root, is the root followed by names, none of which is `..`.
pub proof fn template_stays_below_root(t: Seq<char>, ctx: RenderModel, root: Seq<char>)
    ensures
        ({
            let parts = rendered_parts(t, ctx);
            let dest = path::path_join(root, rendered(t, ctx));
            &&& path::components(dest) == path::components(root) + parts
            &&& path::path_starts_with(dest, root)
            &&& forall|i: int| 0 <= i < parts.len() ==> path::is_name(#[trigger] parts[i])
        }),
{
    let parts = rendered_parts(t, ctx);
    rendered_parts_are_names(t, ctx);
    assert(path::plain_parts(parts));
    assert forall|i: int| 0 <= i < parts.len() implies path::is_name(#[trigger] parts[i]) by {
        assert(path::slash()[0] == '/');
        assert(path::slash().contains('/'));
    }
    if parts.len() == 0 {
        assert(rendered(t, ctx).len() == 0);
        path::join_of_nothing(root);
        assert(rendered(t, ctx) == Seq::<char>::empty());
        assert(path::components(root) + parts == path::components(root));
    } else {
        path::join_adds_components(root, parts);
    }
    let dest = path::path_join(root, rendered(t, ctx));
    assert(path::components(root).is_prefix_of(path::components(dest)));
}

/// A rendered path is relative, with the components that were rendered.
pub proof fn rendered_path_is_relative(t: Seq<char>, ctx: RenderModel)
    ensures
        path::components(rendered(t, ctx)) == rendered_parts(t, ctx),
        rendered(t, ctx).len() > 0 ==> rendered(t, ctx)[0] != '/',
{
    let parts = rendered_parts(t, ctx);
    rendered_parts_are_names(t, ctx);
    assert(path::plain_parts(parts));
    path::components_of_joined_names(parts);
    let r = rendered(t, ctx);
    if r.len() > 0 && r[0] == '/' {
        assert(path::components(r)[0] == path::slash());
        assert(parts[0].contains('/')) by {
            assert(path::slash()[0] == '/');
        }
    }
}

/// A template without an opening brace stands for itself.
pub proof fn text_without_tokens_is_unchanged(t: Seq<char>, ctx: RenderModel)
    requires
        !t.contains('{'),
    ensures
        filled(t, ctx) == t,
{
    lemma_next_index(t, '{', 0);
    let open = next_index(t, '{', 0);
    if open < t.len() {
        assert(t.contains(t[open]));
    }
    lemma_next_index(t, '}', open);
    assert(t.skip(0) == t);
}

proof fn lemma_next_index_shift(a: Seq<char>, b: Seq<char>, c: char, from: int)
    requires
        0 <= from <= b.len(),
    ensures
        next_index(a + b, c, a.len() + from) == a.len() + next_index(b, c, from),
    decreases b.len() - from,
{
    if from < b.len() {
        assert((a + b)[a.len() + from] == b[from]);
        if b[from] != c {
            lemma_next_index_shift(a, b, c, from + 1);
        }
    }
}

proof fn lemma_next_index_is(s: Seq<char>, c: char, from: int, at: int)
    requires
        0 <= from <= at < s.len(),
        s[at] == c,
        forall|i: int| from <= i < at ==> s[i] != c,
    ensures
        next_index(s, c, from) == at,
    decreases at - from,
{
    if from < at {
        lemma_next_index_is(s, c, from + 1, at);
    }
}

proof fn lemma_filled_shift(a: Seq<char>, b: Seq<char>, ctx: RenderModel, from: int)
    requires
        0 <= from <= b.len(),
    ensures
        filled_from(a + b, ctx, a.len() + from) == filled_from(b, ctx, from),
    decreases b.len() - from,
{
    let t = a + b;
    let n = a.len() as int;
    let open = next_index(b, '{', from);
    lemma_next_index(b, '{', from);
    lemma_next_index_shift(a, b, '{', from);
    let close = next_index(b, '}', open);
    lemma_next_index(b, '}', open);
    lemma_next_index_shift(a, b, '}', open);
    if close >= b.len() {
        assert(t.skip(n + from) == b.skip(from));
    } else {
        lemma_filled_shift(a, b, ctx, close + 1);
        assert(t.subrange(n + from, n + open) == b.subrange(from, open));
        assert(t.subrange(n + open + 1, n + close) == b.subrange(open + 1, close));
        assert(t.subrange(n + open, n + close + 1) == b.subrange(open, close + 1));
    }
}

/// How one token is filled in: text in front of the first brace is kept, the
/// token is replaced by its value, or kept with its braces if it is unknown,
/// and what follows is filled in on its own.
pub proof fn one_token_is_filled(
    before: Seq<char>,
    token: Seq<char>,
    after: Seq<char>,
    ctx: RenderModel,
)
    requires
        !before.contains('{'),
        !token.contains('}'),
    ensures
        filled(before + seq!['{'] + token + seq!['}'] + after, ctx) == before + (match ctx.value(
            token,
        ) {
            Some(v) => v,
            None => seq!['{'] + token + seq!['}'],
        }) + filled(after, ctx),
{
    let head = before + seq!['{'] + token + seq!['}'];
    let t = head + after;
    let open = before.len() as int;
    let close = open + 1 + token.len();
    assert forall|i: int| 0 <= i < open implies t[i] != '{' by {
        assert(t[i] == before[i]);
        assert(before.contains(before[i]));
    }
    assert(t[open] == '{');
    lemma_next_index_is(t, '{', 0, open);
    assert(t[close] == '}');
    assert forall|i: int| open <= i < close implies t[i] != '}' by {
        if i > open {
            assert(t[i] == token[i - open - 1]);
            assert(token.contains(token[i - open - 1]));
        }
    }
    lemma_next_index_is(t, '}', open, close);
    assert(t.subrange(0, open) == before);
    assert(t.subrange(open + 1, close) == token);
    assert(t.subrange(open, close + 1) == seq!['{'] + token + seq!['}']);
    lemma_filled_shift(head, after, ctx, 0);
    assert(head.len() == close + 1);
}

/// The name of each token tells it apart from the others.
proof fn lemma_tokens_differ()
    ensures
        "filename"@ == seq!['f', 'i', 'l', 'e', 'n', 'a', 'm', 'e'],
        "name"@ == seq!['n', 'a', 'm', 'e'],
        "ext"@ == seq!['e', 'x', 't'],
        "reldir"@ == seq!['r', 'e', 'l', 'd', 'i', 'r'],
        "relpath"@ == seq!['r', 'e', 'l', 'p', 'a', 't', 'h'],
        "project"@ == seq!['p', 'r', 'o', 'j', 'e', 'c', 't'],
        "YYYY"@ == seq!['Y', 'Y', 'Y', 'Y'],
        "YY"@ == seq!['Y', 'Y'],
        "MM"@ == seq!['M', 'M'],
        "DD"@ == seq!['D', 'D'],
        "fYYYY"@ == seq!['f', 'Y', 'Y', 'Y', 'Y'],
        "fYY"@ == seq!['f', 'Y', 'Y'],
        "fMM"@ == seq!['f', 'M', 'M'],
        "fDD"@ == seq!['f', 'D', 'D'],
        "filename"@.len() == 8 && "name"@.len() == 4 && "ext"@.len() == 3 && "reldir"@.len() == 6
            && "relpath"@.len() == 7 && "project"@.len() == 7 && "YYYY"@.len() == 4 && "YY"@.len()
            == 2 && "MM"@.len() == 2 && "DD"@.len() == 2 && "fYYYY"@.len() == 5 && "fYY"@.len()
            == 3 && "fMM"@.len() == 3 && "fDD"@.len() == 3,
        "relpath"@[0] == 'r' && "project"@[0] == 'p' && "name"@[0] == 'n' && "YYYY"@[0] == 'Y'
            && "YY"@[0] == 'Y' && "MM"@[0] == 'M' && "DD"@[0] == 'D' && "ext"@[0] == 'e'
            && "fYY"@[0] == 'f' && "fYY"@[1] == 'Y' && "fMM"@[0] == 'f' && "fMM"@[1] == 'M'
            && "fDD"@[0] == 'f' && "fDD"@[1] == 'D',
{
    reveal_strlit("filename");
    reveal_strlit("name");
    reveal_strlit("ext");
    reveal_strlit("reldir");
    reveal_strlit("relpath");
    reveal_strlit("project");
    reveal_strlit("YYYY");
    reveal_strlit("YY");
    reveal_strlit("MM");
    reveal_strlit("DD");
    reveal_strlit("fYYYY");
    reveal_strlit("fYY");
    reveal_strlit("fMM");
    reveal_strlit("fDD");
}

/// Whether a token gives a number in two decimal digits: the tens and then the
/// ones.
pub open spec fn gives_two_digits(v: Option<Seq<char>>, n: int) -> bool {
    v matches Some(s) && s.len() == 2 && s[0] as u32 == 48 + n / 10 && s[1] as u32 == 48 + n % 10
}

/// The tokens for months and days are two decimal digits whose number is the
/// month or the day, of the job or of the file.
pub proof fn month_and_day_tokens_are_their_numbers(ctx: RenderModel)
    ensures
        0 <= ctx.job.1 < 100 ==> gives_two_digits(ctx.value("MM"@), ctx.job.1),
        0 <= ctx.job.2 < 100 ==> gives_two_digits(ctx.value("DD"@), ctx.job.2),
        0 <= ctx.file.1 < 100 ==> gives_two_digits(ctx.value("fMM"@), ctx.file.1),
        0 <= ctx.file.2 < 100 ==> gives_two_digits(ctx.value("fDD"@), ctx.file.2),
{
    lemma_tokens_differ();
    if 0 <= ctx.job.1 < 100 {
        text::two_digits_are_tens_and_ones(ctx.job.1 as nat);
    }
    if 0 <= ctx.job.2 < 100 {
        text::two_digits_are_tens_and_ones(ctx.job.2 as nat);
    }
    if 0 <= ctx.file.1 < 100 {
        text::two_digits_are_tens_and_ones(ctx.file.1 as nat);
    }
    if 0 <= ctx.file.2 < 100 {
        text::two_digits_are_tens_and_ones(ctx.file.2 as nat);
    }
}

/// The tokens for years are the year, in at least four characters, and its last
/// two digits, of the job or of the file.
pub proof fn year_tokens_are_their_numbers(ctx: RenderModel)
    ensures
        ctx.job.0 >= 0 ==> (ctx.value("YYYY"@) matches Some(v) && v.len() >= 4 && text::are_digits(v)
            && text::digits_value(v) == ctx.job.0),
        ctx.job.0 < 0 ==> (ctx.value("YYYY"@) matches Some(v) && v.len() >= 4 && v[0] == '-'
            && text::are_digits(v.skip(1)) && text::digits_value(v.skip(1)) == -ctx.job.0),
        ctx.file.0 >= 0 ==> (ctx.value("fYYYY"@) matches Some(v) && v.len() >= 4
            && text::are_digits(v) && text::digits_value(v) == ctx.file.0),
        ctx.file.0 < 0 ==> (ctx.value("fYYYY"@) matches Some(v) && v.len() >= 4 && v[0] == '-'
            && text::are_digits(v.skip(1)) && text::digits_value(v.skip(1)) == -ctx.file.0),
        ctx.job.0 >= 0 ==> gives_two_digits(ctx.value("YY"@), ctx.job.0 % 100),
        ctx.job.0 < 0 ==> gives_two_digits(ctx.value("YY"@), (-ctx.job.0) % 100),
        ctx.file.0 >= 0 ==> gives_two_digits(ctx.value("fYY"@), ctx.file.0 % 100),
        ctx.file.0 < 0 ==> gives_two_digits(ctx.value("fYY"@), (-ctx.file.0) % 100),
{
    lemma_tokens_differ();
    text::signed_number_reads_back(ctx.job.0, 4);
    text::signed_number_reads_back(ctx.file.0, 4);
    let a = if ctx.job.0 >= 0 {
        ctx.job.0 % 100
    } else {
        (-ctx.job.0) % 100
    };
    let b = if ctx.file.0 >= 0 {
        ctx.file.0 % 100
    } else {
        (-ctx.file.0) % 100
    };
    text::two_digits_are_tens_and_ones(a as nat);
    text::two_digits_are_tens_and_ones(b as nat);
}

/// Different days never share a text, nor do different months.
#[verifier::rlimit(40)]
pub proof fn different_days_differ(a: RenderModel, b: RenderModel)
    requires
        0 <= a.job.2 < 100,
        0 <= b.job.2 < 100,
        0 <= a.file.2 < 100,
        0 <= b.file.2 < 100,
        0 <= a.job.1 < 100,
        0 <= b.job.1 < 100,
        0 <= a.file.1 < 100,
        0 <= b.file.1 < 100,
    ensures
        a.value("DD"@) == b.value("DD"@) ==> a.job.2 == b.job.2,
        a.value("fDD"@) == b.value("fDD"@) ==> a.file.2 == b.file.2,
        a.value("MM"@) == b.value("MM"@) ==> a.job.1 == b.job.1,
        a.value("fMM"@) == b.value("fMM"@) ==> a.file.1 == b.file.1,
{
    month_and_day_tokens_are_their_numbers(a);
    month_and_day_tokens_are_their_numbers(b);
    lemma_two_digits_differ(a.value("DD"@), a.job.2, b.value("DD"@), b.job.2);
    lemma_two_digits_differ(a.value("fDD"@), a.file.2, b.value("fDD"@), b.file.2);
    lemma_two_digits_differ(a.value("MM"@), a.job.1, b.value("MM"@), b.job.1);
    lemma_two_digits_differ(a.value("fMM"@), a.file.1, b.value("fMM"@), b.file.1);
}

proof fn lemma_two_digits_differ(v: Option<Seq<char>>, n: int, w: Option<Seq<char>>, m: int)
    requires
        0 <= n < 100,
        0 <= m < 100,
        gives_two_digits(v, n),
        gives_two_digits(w, m),
    ensures
        v == w ==> n == m,
{
}

/// The tokens for names give the parts of the path of a file: its name, the
/// name up to its last dot, what follows that dot, the folder, and the path as
/// a whole. The project is given as it is.
pub proof fn name_tokens_are_parts_of_the_path(
    ctx: RenderModel,
    dirs: Seq<Seq<char>>,
    stem: Seq<char>,
    ext: Seq<char>,
)
    requires
        forall|i: int|
            0 <= i < dirs.len() ==> (#[trigger] dirs[i]).len() > 0 && dirs[i] != seq!['.']
                && !dirs[i].contains('/'),
        stem.len() > 0,
        !stem.contains('/'),
        !ext.contains('/'),
        !ext.contains('.'),
        stem + seq!['.'] + ext != seq!['.', '.'],
        ctx.rel == text::join(dirs.push(stem + seq!['.'] + ext), seq!['/']),
    ensures
        ctx.value("filename"@) == Some(stem + seq!['.'] + ext),
        ctx.value("name"@) == Some(stem),
        ctx.value("ext"@) == Some(ext),
        ctx.value("reldir"@) == Some(text::join(dirs, seq!['/'])),
        ctx.value("relpath"@) == Some(ctx.rel),
        ctx.value("project"@) == Some(ctx.project),
{
    lemma_tokens_differ();
    let name = stem + seq!['.'] + ext;
    let parts = dirs.push(name);
    assert(!name.contains('/')) by {
        if name.contains('/') {
            let i = choose|i: int| 0 <= i < name.len() && name[i] == '/';
            if i < stem.len() {
                assert(stem[i] == '/');
            } else if i > stem.len() {
                assert(ext[i - stem.len() - 1] == '/');
            }
        }
    }
    assert(name.len() >= 2);
    assert forall|i: int| 0 <= i < parts.len() implies (#[trigger] parts[i]).len() > 0 && parts[i]
        != seq!['.'] && !parts[i].contains('/') by {
        if i < dirs.len() {
            assert(parts[i] == dirs[i]);
        } else {
            assert(parts[i].len() >= 2);
        }
    }
    let none = Seq::<char>::empty();
    path::names_make_a_path(parts);
    path::file_name_is_the_last_name(none, parts);
    assert(path::path_join(none, ctx.rel) == ctx.rel) by {
        assert(none + ctx.rel == ctx.rel);
    }
    path::extension_follows_the_last_dot(stem, ext);
    assert(path::slash()[0] == '/');
    assert(name != path::slash()) by {
        assert(path::slash().len() == 1);
    }
    assert(parts.drop_last() == dirs);
}

/// A name without a dot is its own stem, and gives nothing for its extension.
pub proof fn names_without_a_dot_have_no_extension(ctx: RenderModel, name: Seq<char>)
    requires
        name.len() > 0,
        !name.contains('/'),
        !name.contains('.'),
        ctx.rel == name,
    ensures
        ctx.value("filename"@) == Some(name),
        ctx.value("name"@) == Some(name),
        ctx.value("ext"@) == Some(Seq::<char>::empty()),
        ctx.value("reldir"@) == Some(Seq::<char>::empty()),
{
    lemma_tokens_differ();
    let parts = seq![name];
    let none = Seq::<char>::empty();
    assert(name != seq!['.']) by {
        if name == seq!['.'] {
            assert(name[0] == '.');
        }
    }
    assert(name != seq!['.', '.']) by {
        if name == seq!['.', '.'] {
            assert(name[0] == '.');
        }
    }
    assert(name != path::slash()) by {
        if name == path::slash() {
            assert(name[0] == '/');
        }
    }
    assert(text::join(parts, seq!['/']) == name);
    path::names_make_a_path(parts);
    path::file_name_is_the_last_name(none, parts);
    assert(path::path_join(none, name) == name) by {
        assert(none + name == name);
        assert(name[0] != '/');
    }
    path::extension_follows_the_last_dot(seq!['a'], name);
    assert(parts.drop_last() == Seq::<Seq<char>>::empty());
}

/// There are no other tokens.
pub proof fn other_tokens_are_unknown(ctx: RenderModel, token: Seq<char>)
    requires
        ctx.value(token) is Some,
    ensures
        seq![
            "filename"@, "name"@, "ext"@, "reldir"@, "relpath"@, "project"@, "YYYY"@, "YY"@, "MM"@,
            "DD"@, "fYYYY"@, "fYY"@, "fMM"@, "fDD"@,
        ].contains(token),
{
    let all = seq![
        "filename"@, "name"@, "ext"@, "reldir"@, "relpath"@, "project"@, "YYYY"@, "YY"@, "MM"@,
        "DD"@, "fYYYY"@, "fYY"@, "fMM"@, "fDD"@,
    ];
    assert(all[0] == "filename"@ && all[1] == "name"@ && all[2] == "ext"@ && all[3] == "reldir"@
        && all[4] == "relpath"@ && all[5] == "project"@ && all[6] == "YYYY"@ && all[7] == "YY"@
        && all[8] == "MM"@ && all[9] == "DD"@ && all[10] == "fYYYY"@ && all[11] == "fYY"@
        && all[12] == "fMM"@ && all[13] == "fDD"@);
}

/// A brace that is never closed stays, and so does everything behind it.
pub proof fn an_open_brace_stays(before: Seq<char>, after: Seq<char>, ctx: RenderModel)
    requires
        !before.contains('{'),
        !after.contains('}'),
    ensures
        filled(before + seq!['{'] + after, ctx) == before + seq!['{'] + after,
{
    let t = before + seq!['{'] + after;
    let at = before.len() as int;
    assert(t[at] == '{');
    assert forall|i: int| 0 <= i < at implies t[i] != '{' by {
        assert(t[i] == before[i]);
        assert(before.contains(before[i]));
    }
    lemma_next_index_is(t, '{', 0, at);
    lemma_next_index(t, '}', at);
    let close = next_index(t, '}', at);
    if close < t.len() {
        assert(t[close] == '}');
        assert(close > at);
        assert(after[close - at - 1] == '}');
    }
    assert(t.skip(0) == t);
}

proof fn lemma_kept_concat(a: Seq<Seq<char>>, b: Seq<Seq<char>>)
    ensures
        kept(a + b) == kept(a) + kept(b),
    decreases b.len(),
{
    if b.len() == 0 {
        assert(a + b == a);
        assert(kept(a) + kept(b) == kept(a));
    } else {
        lemma_kept_concat(a, b.drop_last());
        assert((a + b).drop_last() == a + b.drop_last());
        assert((a + b).last() == b.last());
    }
}

proof fn lemma_no_brace(a: Seq<char>, sep: char, b: Seq<char>)
    requires
        !a.contains('{'),
        !b.contains('{'),
        sep != '{',
    ensures
        !(a + seq![sep] + b).contains('{'),
{
    let t = a + seq![sep] + b;
    if t.contains('{') {
        let i = choose|i: int| 0 <= i < t.len() && t[i] == '{';
        if i < a.len() {
            assert(a[i] == '{');
        } else if i > a.len() {
            assert(b[i - a.len() - 1] == '{');
        }
    }
}

/// A path is cleaned piece by piece. Both `/` and `\` separate pieces; a piece
/// loses the blanks around it; one that is then empty, `.` or `..` goes, and
/// any other stays. The pieces that stay are joined by `/`.
pub proof fn paths_are_cleaned_piece_by_piece(
    a: Seq<char>,
    sep: char,
    b: Seq<char>,
    ctx: RenderModel,
)
    requires
        !a.contains('{'),
        !b.contains('{'),
        sep == '/' || sep == '\\',
    ensures
        rendered_parts(a + seq![sep] + b, ctx) == rendered_parts(a, ctx) + rendered_parts(b, ctx),
        rendered(a, ctx) == text::join(rendered_parts(a, ctx), seq!['/']),
        !a.contains('/') && !a.contains('\\') ==> rendered_parts(a, ctx) == ({
            let p = text::trimmed(a);
            if p.len() == 0 || p == seq!['.'] || p == seq!['.', '.'] {
                Seq::<Seq<char>>::empty()
            } else {
                seq![p]
            }
        }),
{
    let t = a + seq![sep] + b;
    lemma_no_brace(a, sep, b);
    text_without_tokens_is_unchanged(t, ctx);
    text_without_tokens_is_unchanged(a, ctx);
    text_without_tokens_is_unchanged(b, ctx);
    let swap = |s: Seq<char>|
        Seq::new(
            s.len(),
            |i: int|
                if s[i] == '\\' {
                    '/'
                } else {
                    s[i]
                },
        );
    text::separators_count_alike(t, '/', '\\');
    text::separators_count_alike(a, '/', '\\');
    text::separators_count_alike(b, '/', '\\');
    assert(swap(t) == swap(a) + seq!['/'] + swap(b));
    text::split_at_separator(swap(a), swap(b), '/');
    lemma_kept_concat(text::split(a, separators()), text::split(b, separators()));
    if !a.contains('/') && !a.contains('\\') {
        assert(swap(a) == a) by {
            assert forall|i: int| 0 <= i < a.len() implies a[i] != '\\' by {
                assert(a.contains(a[i]));
            }
        }
        let one = seq![a];
        assert forall|i: int, k: int| 0 <= i < one.len() && 0 <= k < one[i].len() implies
            #[trigger] one[i][k] != '/' by {
            assert(a.contains(a[k]));
        }
        text::split_undoes_join(one, '/');
        reveal_with_fuel(kept, 2);
        assert(one.drop_last() == Seq::<Seq<char>>::empty());
        assert(one.last() == a);
    }
}

/// What is rendered depends on a template through what it is filled in to.
pub proof fn rendering_is_cleaning_what_was_filled_in(t: Seq<char>, ctx: RenderModel)
    requires
        !filled(t, ctx).contains('{'),
    ensures
        rendered(t, ctx) == rendered(filled(t, ctx), ctx),
        rendered_parts(t, ctx) == rendered_parts(filled(t, ctx), ctx),
{
    text_without_tokens_is_unchanged(filled(t, ctx), ctx);
}

/// A context stands for its fields; a date is its year, its month and its day.
pub proof fn contexts_stand_for_their_fields<'a>(c: RenderCtx<'a>)
    ensures
        c@.rel == c.rel.text@,
        c@.project == c.project@,
        c@.job == (c.job_year as int, c.job_month as int, c.job_day as int),
        c@.file == (c.file_year as int, c.file_month as int, c.file_day as int),
{
}

} // verus!
