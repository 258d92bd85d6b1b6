//! File paths as text. A path is read as the list of its components, which are
//! separated by `/`: the root (`/`), a leading `.`, `..`, and names. A path that
//! comes from Windows, where `\` separates too, is brought into this form by
//! [`FilePath::from_windows`].

use crate::text;
use crate::text::{from_chars, join_text, same_text, split_text, starts_with, to_chars};
use vstd::prelude::*;
use vstd::string::*;

verus! {

/// The text of the root component, and of the separator.
pub open spec fn slash() -> Seq<char> {
    seq!['/']
}

/// The text of a component that stands for the current directory.
pub open spec fn dot() -> Seq<char> {
    seq!['.']
}

/// The text of a component that stands for the parent directory.
pub open spec fn dot_dot() -> Seq<char> {
    seq!['.', '.']
}

/// The pieces that are neither empty nor `.`.
pub open spec fn named(pieces: Seq<Seq<char>>) -> Seq<Seq<char>>
    decreases pieces.len(),
{
    if pieces.len() == 0 {
        Seq::<Seq<char>>::empty()
    } else if pieces.last().len() == 0 || pieces.last() == dot() {
        named(pieces.drop_last())
    } else {
        named(pieces.drop_last()).push(pieces.last())
    }
}

/// The components of a path: repeated separators and inner `.` do not count, a
/// path that starts at the root has `/` as its first component, and one that
/// starts with `.` keeps it.
pub open spec fn components(t: Seq<char>) -> Seq<Seq<char>> {
    let pieces = text::split(t, slash());
    if t.len() > 0 && t[0] == '/' {
        seq![slash()] + named(pieces)
    } else if pieces[0] == dot() {
        seq![dot()] + named(pieces)
    } else {
        named(pieces)
    }
}

/// The components of a path with `/` between them.
pub open spec fn slashed(t: Seq<char>) -> Seq<char> {
    text::join(components(t), slash())
}

/// Whether a component is a name: not the root, `.` or `..`.
pub open spec fn is_name(c: Seq<char>) -> bool {
    c != slash() && c != dot() && c != dot_dot()
}

/// The last component, if it is a name.
pub open spec fn file_name(t: Seq<char>) -> Option<Seq<char>> {
    let c = components(t);
    if c.len() > 0 && is_name(c.last()) {
        Some(c.last())
    } else {
        None
    }
}

/// The position of the last `c` in `s`, or -1.
pub open spec fn last_index(s: Seq<char>, c: char) -> int
    decreases s.len(),
{
    if s.len() == 0 {
        -1
    } else if s.last() == c {
        s.len() - 1
    } else {
        last_index(s.drop_last(), c)
    }
}

/// The part of a file name before its last dot. A dot in front of the whole
/// name does not count.
pub open spec fn stem_of(name: Seq<char>) -> Seq<char> {
    let d = last_index(name, '.');
    if d <= 0 {
        name
    } else {
        name.take(d)
    }
}

/// The part of a file name after its last dot, where that dot counts.
pub open spec fn ext_of_name(name: Seq<char>) -> Option<Seq<char>> {
    let d = last_index(name, '.');
    if d <= 0 {
        None
    } else {
        Some(name.skip(d + 1))
    }
}

/// The file name of a path without its extension.
pub open spec fn file_stem(t: Seq<char>) -> Option<Seq<char>> {
    match file_name(t) {
        Some(n) => Some(stem_of(n)),
        None => None,
    }
}

/// The extension of a path's file name.
pub open spec fn extension(t: Seq<char>) -> Option<Seq<char>> {
    match file_name(t) {
        Some(n) => ext_of_name(n),
        None => None,
    }
}

/// The components of a path's parent: none for an empty path and for the root.
pub open spec fn parent_components(t: Seq<char>) -> Seq<Seq<char>> {
    let c = components(t);
    if c.len() == 0 || c.last() == slash() {
        Seq::<Seq<char>>::empty()
    } else {
        c.drop_last()
    }
}

/// Whether a path has a parent: the empty path and the root have none.
pub open spec fn has_parent(t: Seq<char>) -> bool {
    components(t).len() > 0 && components(t).last() != slash()
}

/// The shortest beginning of `t`, at least `from` long, that has the components
/// `c`; `t` itself if there is none.
pub open spec fn prefix_with(t: Seq<char>, c: Seq<Seq<char>>, from: int) -> Seq<char>
    decreases t.len() - from,
{
    if from >= t.len() || components(t.take(from)) == c {
        t.take(if from >= t.len() { t.len() as int } else { from })
    } else {
        prefix_with(t, c, from + 1)
    }
}

/// The text of a path's parent.
pub open spec fn parent_text(t: Seq<char>) -> Seq<char> {
    prefix_with(t, parent_components(t), 0)
}

/// `rel` seen from `root`: a path that starts at the root stands for itself.
pub open spec fn path_join(root: Seq<char>, rel: Seq<char>) -> Seq<char> {
    if rel.len() > 0 && rel[0] == '/' {
        rel
    } else if root.len() == 0 || root.last() == '/' {
        root + rel
    } else {
        root + slash() + rel
    }
}

/// Whether the components of `base` are the first components of `t`.
pub open spec fn path_starts_with(t: Seq<char>, base: Seq<char>) -> bool {
    components(base).is_prefix_of(components(t))
}

/// Whether a list holds only what can be a name or `..`: non-empty texts other
/// than `.` that hold no separator.
pub open spec fn plain_parts(parts: Seq<Seq<char>>) -> bool {
    forall|i: int|
        0 <= i < parts.len() ==> (#[trigger] parts[i]).len() > 0 && parts[i] != dot()
            && !parts[i].contains('/')
}

/// A path, kept as the text it was given as.
#[derive(Debug)]
pub struct FilePath {
    pub text: String,
}

impl View for FilePath {
    type V = Seq<char>;

    open spec fn view(&self) -> Seq<char> {
        self.text@
    }
}

/// `t` with `/` for every `\`.
pub open spec fn unified(t: Seq<char>) -> Seq<char> {
    Seq::new(
        t.len(),
        |i: int|
            if t[i] == '\\' {
                '/'
            } else {
                t[i]
            },
    )
}

/// The paths of a list, as text.
pub open spec fn path_texts(paths: Seq<FilePath>) -> Seq<Seq<char>> {
    Seq::new(paths.len(), |i: int| paths[i]@)
}

/// The text of an optional path.
pub open spec fn path_text(p: Option<FilePath>) -> Option<Seq<char>> {
    match p {
        Some(p) => Some(p@),
        None => None,
    }
}

impl Clone for FilePath {
    fn clone(&self) -> (r: Self)
        ensures
            r == *self,
    {
        FilePath { text: self.text.clone() }
    }
}

impl FilePath {
    /// The path with this text.
    pub fn new(text: &str) -> (r: FilePath)
        ensures
            r@ == text@,
    {
        FilePath { text: text.to_owned() }
    }

    /// The path that Windows writes as this text: `\` separates components as
    /// `/` does.
    pub fn from_windows(text: &str) -> (r: FilePath)
        ensures
            r@ == unified(text@),
    {
        let chars = to_chars(text);
        let mut out: Vec<char> = Vec::new();
        let mut i: usize = 0;
        while i < chars.len()
            invariant
                i <= chars@.len(),
                out@ == unified(chars@).take(i as int),
            decreases chars@.len() - i,
        {
            let ghost before = out@;
            if chars[i] == '\\' {
                out.push('/');
            } else {
                out.push(chars[i]);
            }
            i += 1;
            assert(unified(chars@).take(i as int) == before.push(unified(chars@)[i - 1]));
        }
        assert(unified(chars@).take(chars@.len() as int) == unified(chars@));
        assert(out@.subrange(0, out@.len() as int) == out@);
        FilePath { text: from_chars(&out, 0, out.len()) }
    }

    /// The components of the path.
    pub fn components(&self) -> (r: Vec<String>)
        ensures
            text::texts(r@) == components(self@),
    {
        let mut seps: Vec<char> = Vec::new();
        seps.push('/');
        assert(seps@ == slash());
        let pieces = split_text(self.text.as_str(), &seps);
        let ghost all = text::split(self@, slash());
        proof {
            text::split_is_nonempty(self@, slash());
        }
        let mut r: Vec<String> = Vec::new();
        let ghost mut lead = Seq::<Seq<char>>::empty();
        let rooted = starts_with(self.text.as_str(), "/");
        proof {
            reveal_strlit("/");
            reveal_strlit(".");
            assert("/"@ == slash());
            assert("."@ == dot());
            if text::begins_with(self@, slash()) {
                assert(self@.take(1)[0] == '/');
            } else if self@.len() > 0 && self@[0] == '/' {
                assert(self@.take(1) == slash());
            }
            assert(all[0] == pieces@[0]@);
        }
        if rooted {
            r.push("/".to_owned());
            proof {
                lead = seq![slash()];
            }
        } else if same_text(pieces[0].as_str(), ".") {
            r.push(".".to_owned());
            proof {
                lead = seq![dot()];
            }
        }
        assert(text::texts(r@) == lead + named(all.take(0)));
        let mut i: usize = 0;
        while i < pieces.len()
            invariant
                text::texts(pieces@) == all,
                "."@ == dot(),
                i <= pieces@.len(),
                text::texts(r@) == lead + named(all.take(i as int)),
            decreases pieces@.len() - i,
        {
            let ghost next = all.take(i + 1);
            assert(next.drop_last() == all.take(i as int));
            assert(next.last() == pieces@[i as int]@);
            let ghost before = text::texts(r@);
            if !pieces[i].as_str().is_empty() && !same_text(pieces[i].as_str(), ".") {
                r.push(pieces[i].clone());
                assert(text::texts(r@) == before.push(pieces@[i as int]@));
                assert(text::texts(r@) == lead + named(next));
            }
            i += 1;
        }
        assert(all.take(all.len() as int) == all);
        assert(text::texts(r@) == components(self@));
        r
    }

    /// The last component, if it is a name.
    pub fn file_name(&self) -> (r: Option<String>)
        ensures
            r is Some <==> file_name(self@) is Some,
            r matches Some(n) ==> n@ == file_name(self@)->0,
    {
        let c = self.components();
        assert(c@.len() == components(self@).len());
        if c.len() == 0 {
            return None;
        }
        let last = &c[c.len() - 1];
        assert(last@ == components(self@).last());
        proof {
            reveal_strlit("/");
            reveal_strlit(".");
            reveal_strlit("..");
            assert("/"@ == slash());
            assert("."@ == dot());
            assert(".."@ == dot_dot());
        }
        if same_text(last.as_str(), "/") || same_text(last.as_str(), ".") || same_text(
            last.as_str(),
            "..",
        ) {
            None
        } else {
            Some(last.clone())
        }
    }

    /// The file name without its extension.
    pub fn file_stem(&self) -> (r: Option<String>)
        ensures
            r is Some <==> file_stem(self@) is Some,
            r matches Some(n) ==> n@ == file_stem(self@)->0,
    {
        match self.file_name() {
            None => None,
            Some(name) => {
                let chars = to_chars(name.as_str());
                match last_position(&chars, '.') {
                    Some(d) => if d > 0 {
                        assert(chars@.subrange(0, d as int) == chars@.take(d as int));
                        Some(from_chars(&chars, 0, d))
                    } else {
                        Some(name)
                    },
                    None => Some(name),
                }
            },
        }
    }

    /// The extension of the file name.
    pub fn extension(&self) -> (r: Option<String>)
        ensures
            r is Some <==> extension(self@) is Some,
            r matches Some(n) ==> n@ == extension(self@)->0,
    {
        match self.file_name() {
            None => None,
            Some(name) => {
                let chars = to_chars(name.as_str());
                match last_position(&chars, '.') {
                    Some(d) => if d > 0 {
                        let n = chars.len();
                        assert(chars@.subrange(d + 1, n as int) == chars@.skip(d + 1));
                        Some(from_chars(&chars, d + 1, n))
                    } else {
                        None
                    },
                    None => None,
                }
            },
        }
    }

    /// The components of the parent with `/` between them.
    pub fn parent_slashed(&self) -> (r: String)
        ensures
            r@ == text::join(parent_components(self@), slash()),
    {
        let mut c = self.components();
        let ghost all = components(self@);
        proof {
            reveal_strlit("/");
            assert("/"@ == slash());
            assert(c@.len() == all.len());
        }
        if c.len() == 0 {
            assert(parent_components(self@) == text::texts(c@));
            return join_text(&c, "/");
        }
        assert(c@[c@.len() - 1]@ == all.last());
        if same_text(c[c.len() - 1].as_str(), "/") {
            return String::new();
        }
        c.pop();
        assert(text::texts(c@) == all.drop_last());
        join_text(&c, "/")
    }

    /// The parent of the path, if it has one.
    pub fn parent(&self) -> (r: Option<FilePath>)
        ensures
            r is Some <==> has_parent(self@),
            r matches Some(p) ==> p@ == parent_text(self@),
    {
        let mut wanted = self.components();
        let ghost all = components(self@);
        proof {
            reveal_strlit("/");
            assert("/"@ == slash());
            assert(wanted@.len() == all.len());
        }
        if wanted.len() == 0 {
            return None;
        }
        assert(wanted@[wanted@.len() - 1]@ == all.last());
        if same_text(wanted[wanted.len() - 1].as_str(), "/") {
            return None;
        }
        wanted.pop();
        let ghost c = parent_components(self@);
        assert(text::texts(wanted@) == c);
        let chars = to_chars(self.text.as_str());
        let mut k: usize = 0;
        while k < chars.len()
            invariant
                chars@ == self@,
                has_parent(self@),
                c == parent_components(self@),
                k <= chars@.len(),
                text::texts(wanted@) == c,
                prefix_with(self@, c, k as int) == prefix_with(self@, c, 0),
            decreases chars@.len() - k,
        {
            let head = FilePath { text: from_chars(&chars, 0, k) };
            assert(head@ == self@.take(k as int));
            if same_texts(&head.components(), &wanted) {
                return Some(head);
            }
            k += 1;
        }
        assert(self@.take(self@.len() as int) == self@);
        Some(self.clone())
    }

    /// `rel` seen from this path.
    pub fn join(&self, rel: &FilePath) -> (r: FilePath)
        ensures
            r@ == path_join(self@, rel@),
    {
        let mine = to_chars(self.text.as_str());
        let theirs = to_chars(rel.text.as_str());
        if theirs.len() > 0 && theirs[0] == '/' {
            return rel.clone();
        }
        let mut text = self.text.clone();
        if mine.len() > 0 && mine[mine.len() - 1] != '/' {
            text.push('/');
            assert(text@ == self@ + slash());
        }
        text.append(rel.text.as_str());
        FilePath { text }
    }

    /// Whether the components of `base` are the first components of this path.
    pub fn starts_with(&self, base: &FilePath) -> (r: bool)
        ensures
            r == path_starts_with(self@, base@),
    {
        let mine = self.components();
        let first = base.components();
        let ghost m = components(self@);
        let ghost f = components(base@);
        assert(mine@.len() == m.len());
        assert(first@.len() == f.len());
        if first.len() > mine.len() {
            return false;
        }
        let mut i: usize = 0;
        while i < first.len()
            invariant
                m == components(self@),
                f == components(base@),
                m == text::texts(mine@),
                f == text::texts(first@),
                first@.len() <= mine@.len(),
                i <= first@.len(),
                forall|j: int| 0 <= j < i ==> m[j] == f[j],
            decreases first@.len() - i,
        {
            if !same_text(mine[i].as_str(), first[i].as_str()) {
                assert(m[i as int] != f[i as int]);
                return false;
            }
            assert(m[i as int] == f[i as int]);
            i += 1;
        }
        assert(f.is_prefix_of(m));
        true
    }

    /// The components that follow those of `base`, where this path is below it.
    pub fn strip_prefix(&self, base: &FilePath) -> (r: Option<Vec<String>>)
        ensures
            r is Some <==> path_starts_with(self@, base@),
            r matches Some(rest) ==> text::texts(rest@) == components(self@).skip(
                components(base@).len() as int,
            ),
    {
        if !self.starts_with(base) {
            return None;
        }
        let mine = self.components();
        let first = base.components();
        let ghost m = components(self@);
        let ghost f = components(base@);
        assert(mine@.len() == m.len());
        assert(first@.len() == f.len());
        let mut rest: Vec<String> = Vec::new();
        let mut i: usize = first.len();
        while i < mine.len()
            invariant
                m == text::texts(mine@),
                f.len() <= i <= mine@.len(),
                text::texts(rest@) == m.subrange(f.len() as int, i as int),
            decreases mine@.len() - i,
        {
            let ghost before = text::texts(rest@);
            rest.push(mine[i].clone());
            i += 1;
            assert(text::texts(rest@) == before.push(m[i - 1]));
            assert(m.subrange(f.len() as int, i as int) == before.push(m[i - 1]));
        }
        assert(m.subrange(f.len() as int, m.len() as int) == m.skip(f.len() as int));
        Some(rest)
    }
}

/// The components of a path with `/` between them: a portable, stable key.
pub fn forward_slash(rel: &FilePath) -> (r: String)
    ensures
        r@ == slashed(rel@),
{
    proof {
        reveal_strlit("/");
        assert("/"@ == slash());
    }
    join_text(&rel.components(), "/")
}

/// Whether two lists hold the same texts in the same order.
pub fn same_texts(a: &Vec<String>, b: &Vec<String>) -> (r: bool)
    ensures
        r == (text::texts(a@) == text::texts(b@)),
{
    let ghost x = text::texts(a@);
    let ghost y = text::texts(b@);
    if a.len() != b.len() {
        assert(x.len() != y.len());
        return false;
    }
    let mut i: usize = 0;
    while i < a.len()
        invariant
            x == text::texts(a@),
            y == text::texts(b@),
            a@.len() == b@.len(),
            i <= a@.len(),
            forall|j: int| 0 <= j < i ==> x[j] == y[j],
        decreases a@.len() - i,
    {
        if !same_text(a[i].as_str(), b[i].as_str()) {
            assert(x[i as int] != y[i as int]);
            return false;
        }
        assert(x[i as int] == y[i as int]);
        i += 1;
    }
    assert(x == y);
    true
}

/// The position of the last `c` in the list.
pub fn last_position(chars: &Vec<char>, c: char) -> (r: Option<usize>)
    ensures
        match r {
            Some(i) => last_index(chars@, c) == i && i < chars@.len(),
            None => last_index(chars@, c) == -1,
        },
{
    let mut n: usize = chars.len();
    assert(chars@.take(n as int) == chars@);
    while n > 0
        invariant
            n <= chars@.len(),
            last_index(chars@, c) == last_index(chars@.take(n as int), c),
        decreases n,
    {
        assert(chars@.take(n as int).drop_last() == chars@.take(n - 1));
        if chars[n - 1] == c {
            return Some(n - 1);
        }
        n -= 1;
    }
    None
}

// ---------------------------------------------------------------------------
// Laws
// ---------------------------------------------------------------------------

proof fn lemma_named_concat(a: Seq<Seq<char>>, b: Seq<Seq<char>>)
    ensures
        named(a + b) == named(a) + named(b),
    decreases b.len(),
{
    if b.len() == 0 {
        assert(a + b == a);
        assert(named(a) + named(b) == named(a));
    } else {
        lemma_named_concat(a, b.drop_last());
        assert((a + b).drop_last() == a + b.drop_last());
        assert((a + b).last() == b.last());
        assert((named(a) + named(b.drop_last())).push(b.last()) == named(a) + named(
            b.drop_last(),
        ).push(b.last()));
    }
}

proof fn lemma_named_keeps_plain(parts: Seq<Seq<char>>)
    requires
        plain_parts(parts),
    ensures
        named(parts) == parts,
    decreases parts.len(),
{
    if parts.len() > 0 {
        let front = parts.drop_last();
        assert forall|i: int| 0 <= i < front.len() implies (#[trigger] front[i]).len() > 0
            && front[i] != dot() && !front[i].contains('/') by {
            assert(parts[i] == front[i]);
        }
        lemma_named_keeps_plain(front);
        assert(parts[parts.len() - 1] == parts.last());
        assert(front.push(parts.last()) == parts);
    }
}

proof fn lemma_join_first_char(parts: Seq<Seq<char>>)
    requires
        parts.len() > 0,
        plain_parts(parts),
    ensures
        text::join(parts, slash()).len() > 0,
        text::join(parts, slash())[0] == parts[0][0],
        parts[0][0] != '/',
    decreases parts.len(),
{
    assert(parts[0].len() > 0);
    assert(parts[0].contains(parts[0][0]));
    if parts.len() > 1 {
        let front = parts.drop_last();
        assert forall|i: int| 0 <= i < front.len() implies (#[trigger] front[i]).len() > 0
            && front[i] != dot() && !front[i].contains('/') by {
            assert(parts[i] == front[i]);
        }
        lemma_join_first_char(front);
        assert(front[0] == parts[0]);
    }
}

proof fn lemma_split_of_joined(parts: Seq<Seq<char>>)
    requires
        parts.len() > 0,
        plain_parts(parts),
    ensures
        text::split(text::join(parts, slash()), slash()) == parts,
{
    assert forall|i: int, k: int|
        0 <= i < parts.len() && 0 <= k < parts[i].len() implies #[trigger] parts[i][k] != '/' by {
        assert(parts[i].contains(parts[i][k]));
    }
    text::split_undoes_join(parts, '/');
}

/// Names joined by `/` make a path whose components are those names.
pub proof fn components_of_joined_names(parts: Seq<Seq<char>>)
    requires
        plain_parts(parts),
    ensures
        components(text::join(parts, slash())) == parts,
{
    let t = text::join(parts, slash());
    if parts.len() == 0 {
        assert(text::split(t, slash()) == seq![Seq::<char>::empty()]);
        assert(named(seq![Seq::<char>::empty()]) == Seq::<Seq<char>>::empty()) by {
            reveal_with_fuel(named, 2);
            assert(seq![Seq::<char>::empty()].last() == Seq::<char>::empty());
        }
        assert(components(t) == parts);
    } else {
        lemma_split_of_joined(parts);
        lemma_join_first_char(parts);
        lemma_named_keeps_plain(parts);
        assert(parts[0] != dot());
    }
}

proof fn lemma_first_piece(a: Seq<char>, b: Seq<char>)
    ensures
        text::split(a + slash() + b, slash())[0] == text::split(a, slash())[0],
{
    text::split_at_separator(a, b, '/');
    text::split_is_nonempty(a, slash());
}

/// Joining names below a root adds exactly those names to the root's
/// components.
pub proof fn join_adds_components(root: Seq<char>, parts: Seq<Seq<char>>)
    requires
        plain_parts(parts),
        parts.len() > 0,
    ensures
        components(path_join(root, text::join(parts, slash()))) == components(root) + parts,
{
    let rel = text::join(parts, slash());
    lemma_join_first_char(parts);
    components_of_joined_names(parts);
    lemma_split_of_joined(parts);
    lemma_named_keeps_plain(parts);
    let none = Seq::<Seq<char>>::empty();
    let e = Seq::<char>::empty();
    if root.len() == 0 {
        assert(root + rel == rel);
        assert(root == text::join(none, slash()));
        components_of_joined_names(none);
        assert(components(root) + parts == parts);
    } else {
        let a = if root.last() == '/' {
            root.drop_last()
        } else {
            root
        };
        let t = path_join(root, rel);
        assert(t == a + slash() + rel);
        text::split_at_separator(a, rel, '/');
        text::split_is_nonempty(a, slash());
        lemma_named_concat(text::split(a, slash()), parts);
        assert(t[0] == root[0]);
        if root.last() == '/' {
            text::split_at_separator(a, e, '/');
            assert(a + slash() + e == root);
            assert(text::split(e, slash()) == seq![e]);
            lemma_named_concat(text::split(a, slash()), seq![e]);
            assert(named(seq![e]) == none) by {
                reveal_with_fuel(named, 2);
                assert(seq![e].last() == e);
            }
            assert(named(text::split(a, slash())) + none == named(text::split(a, slash())));
            lemma_first_piece(a, e);
        }
        lemma_first_piece(a, rel);
        assert(named(text::split(root, slash())) == named(text::split(a, slash())));
        assert(text::split(root, slash())[0] == text::split(a, slash())[0]);
        let n = named(text::split(a, slash()));
        assert((seq![slash()] + n) + parts == seq![slash()] + (n + parts));
        assert((seq![dot()] + n) + parts == seq![dot()] + (n + parts));
    }
}

/// Where a file name has an extension, the name is the stem, a dot and the
/// extension; where it has none, the stem is the whole name.
pub proof fn stem_and_extension_make_the_name(name: Seq<char>)
    ensures
        match ext_of_name(name) {
            Some(e) => name == stem_of(name) + dot() + e,
            None => name == stem_of(name),
        },
{
    lemma_last_index(name, '.');
    let d = last_index(name, '.');
    if d > 0 {
        assert(name == name.take(d) + dot() + name.skip(d + 1));
    }
}

proof fn lemma_last_index(s: Seq<char>, c: char)
    ensures
        -1 <= last_index(s, c) < s.len(),
        last_index(s, c) >= 0 ==> s[last_index(s, c)] == c,
    decreases s.len(),
{
    if s.len() > 0 && s.last() != c {
        lemma_last_index(s.drop_last(), c);
    }
}

proof fn lemma_named_is_plain(pieces: Seq<Seq<char>>)
    requires
        forall|i: int| 0 <= i < pieces.len() ==> !(#[trigger] pieces[i]).contains('/'),
    ensures
        plain_parts(named(pieces)),
    decreases pieces.len(),
{
    if pieces.len() > 0 {
        let front = pieces.drop_last();
        assert forall|i: int| 0 <= i < front.len() implies !(#[trigger] front[i]).contains(
            '/',
        ) by {
            assert(pieces[i] == front[i]);
        }
        lemma_named_is_plain(front);
        assert(!pieces[pieces.len() - 1].contains('/'));
    }
}

proof fn lemma_split_named_is_plain(t: Seq<char>)
    ensures
        plain_parts(named(text::split(t, slash()))),
{
    let pieces = text::split(t, slash());
    text::split_pieces_hold_no_separator(t, slash());
    assert forall|i: int| 0 <= i < pieces.len() implies !(#[trigger] pieces[i]).contains('/') by {
        if pieces[i].contains('/') {
            let k = choose|k: int| 0 <= k < pieces[i].len() && pieces[i][k] == '/';
            assert(slash()[0] == '/');
            assert(slash().contains(pieces[i][k]));
        }
    }
    lemma_named_is_plain(pieces);
}

proof fn lemma_join_cons(x: Seq<char>, parts: Seq<Seq<char>>)
    requires
        parts.len() > 0,
    ensures
        text::join(seq![x] + parts, slash()) == x + slash() + text::join(parts, slash()),
    decreases parts.len(),
{
    let all = seq![x] + parts;
    assert(all.last() == parts.last());
    if parts.len() == 1 {
        assert(all.drop_last() == seq![x]);
        assert(text::join(seq![x], slash()) == x);
        assert(parts.last() == parts[0]);
    } else {
        let front = parts.drop_last();
        assert(all.drop_last() == seq![x] + front);
        lemma_join_cons(x, front);
        assert(x + slash() + text::join(front, slash()) + slash() + parts.last() == x + slash() + (
        text::join(front, slash()) + slash() + parts.last()));
    }
}

/// A path and its components joined by `/` have the same components, so the
/// joined form is a stable key: rendering it again changes nothing.
pub proof fn forward_slash_is_stable(t: Seq<char>)
    ensures
        components(slashed(t)) == components(t),
        slashed(slashed(t)) == slashed(t),
{
    let names = named(text::split(t, slash()));
    lemma_split_named_is_plain(t);
    lemma_named_keeps_plain(names);
    let j = text::join(names, slash());
    let e = Seq::<char>::empty();
    let u = slashed(t);
    if names.len() > 0 {
        lemma_split_of_joined(names);
    }
    reveal_with_fuel(named, 3);
    reveal_with_fuel(text::split, 3);
    if t.len() > 0 && t[0] == '/' {
        assert(slash().drop_last() == e);
        assert(slash().contains('/')) by {
            assert(slash()[0] == '/');
        }
        assert(text::split(slash(), slash()) == seq![e, e]);
        assert(seq![e, e].drop_last() == seq![e]);
        assert(seq![e].drop_last() == Seq::<Seq<char>>::empty());
        assert(named(seq![e, e]) == Seq::<Seq<char>>::empty());
        if names.len() == 0 {
            assert(seq![slash()] + names == seq![slash()]);
            assert(u == slash());
        } else {
            lemma_join_cons(slash(), names);
            assert(u == slash() + slash() + j);
            text::split_at_separator(slash(), j, '/');
            lemma_named_concat(seq![e, e], names);
            assert(Seq::<Seq<char>>::empty() + names == names);
        }
    } else if text::split(t, slash())[0] == dot() {
        assert(dot().drop_last() == e);
        assert(!slash().contains('.'));
        assert(text::split(dot(), slash()) == seq![dot()]) by {
            assert(text::split(e, slash()) == seq![e]);
            assert(seq![e].drop_last().push(e.push('.')) == seq![dot()]) by {
                assert(e.push('.') == dot());
            }
            assert(seq![e].last() == e);
        }
        assert(seq![dot()].drop_last() == Seq::<Seq<char>>::empty());
        assert(seq![dot()].last() == dot());
        assert(named(seq![dot()]) == Seq::<Seq<char>>::empty());
        if names.len() == 0 {
            assert(seq![dot()] + names == seq![dot()]);
            assert(u == dot());
        } else {
            lemma_join_cons(dot(), names);
            assert(u == dot() + slash() + j);
            text::split_at_separator(dot(), j, '/');
            lemma_named_concat(seq![dot()], names);
            assert(Seq::<Seq<char>>::empty() + names == names);
            assert((seq![dot()] + names)[0] == dot());
        }
    } else {
        components_of_joined_names(names);
    }
}

/// The empty path, seen from a root, is the root.
pub proof fn join_of_nothing(root: Seq<char>)
    ensures
        components(path_join(root, Seq::<char>::empty())) == components(root),
{
    let e = Seq::<char>::empty();
    if root.len() == 0 || root.last() == '/' {
        assert(root + e == root);
    } else {
        let t = root + slash() + e;
        text::split_at_separator(root, e, '/');
        text::split_is_nonempty(root, slash());
        let pieces = text::split(root, slash());
        assert(text::split(t, slash()) == pieces + seq![e]);
        lemma_named_concat(pieces, seq![e]);
        assert(named(seq![e]) == Seq::<Seq<char>>::empty()) by {
            reveal_with_fuel(named, 2);
            assert(seq![e].last() == e);
        }
        assert(named(pieces) + Seq::<Seq<char>>::empty() == named(pieces));
        assert(t[0] == root[0]);
        assert((pieces + seq![e])[0] == pieces[0]);
    }
}

/// What is left of a path after its first components, taken as a path of its
/// own, has the components that were left.
pub proof fn rest_of_path_is_a_path(t: Seq<char>, n: int)
    requires
        0 <= n <= components(t).len(),
    ensures
        components(text::join(components(t).skip(n), slash())) == components(t).skip(n),
{
    let c = components(t);
    if n == 0 {
        assert(c.skip(0) == c);
        forward_slash_is_stable(t);
    } else {
        let names = named(text::split(t, slash()));
        lemma_split_named_is_plain(t);
        let rest = c.skip(n);
        let shift: int = c.len() - names.len();
        assert forall|i: int| 0 <= i < rest.len() implies (#[trigger] rest[i]).len() > 0 && rest[i]
            != dot() && !rest[i].contains('/') by {
            assert(rest[i] == names[i + n - shift]);
        }
        components_of_joined_names(rest);
    }
}

/// A relative path reads the same whichever way Windows separates its names:
/// written with `/`, it is its names with `/` between them.
pub proof fn windows_names_are_slashed(parts: Seq<Seq<char>>)
    requires
        plain_parts(parts),
        forall|i: int| 0 <= i < parts.len() ==> !(#[trigger] parts[i]).contains('\\'),
    ensures
        slashed(unified(text::join(parts, seq!['\\']))) == text::join(parts, slash()),
{
    lemma_unified_join(parts);
    components_of_joined_names(parts);
}

proof fn lemma_unified_join(parts: Seq<Seq<char>>)
    requires
        forall|i: int| 0 <= i < parts.len() ==> !(#[trigger] parts[i]).contains('\\'),
    ensures
        unified(text::join(parts, seq!['\\'])) == text::join(parts, slash()),
    decreases parts.len(),
{
    if parts.len() > 0 {
        let front = parts.drop_last();
        assert forall|i: int| 0 <= i < front.len() implies !(#[trigger] front[i]).contains(
            '\\',
        ) by {
            assert(front[i] == parts[i]);
        }
        lemma_unified_join(front);
        let last = parts.last();
        assert(last == parts[parts.len() - 1]);
        assert forall|i: int| 0 <= i < last.len() implies last[i] != '\\' by {
            assert(last.contains(last[i]));
        }
        assert(unified(last) == last);
        let a = text::join(front, seq!['\\']);
        assert(unified(a + seq!['\\'] + last) == unified(a) + slash() + last);
    }
}

/// Names with `/` between them make a path with those names, in order; a `/` or
/// `./` in front is a component of its own.
pub proof fn names_make_a_path(parts: Seq<Seq<char>>)
    requires
        parts.len() > 0,
        forall|i: int|
            0 <= i < parts.len() ==> (#[trigger] parts[i]).len() > 0 && parts[i] != seq!['.']
                && !parts[i].contains('/'),
    ensures
        components(text::join(parts, seq!['/'])) == parts,
        components(seq!['/'] + text::join(parts, seq!['/'])) == seq![seq!['/']] + parts,
        components(seq!['.', '/'] + text::join(parts, seq!['/'])) == seq![seq!['.']] + parts,
        slashed(text::join(parts, seq!['/'])) == text::join(parts, seq!['/']),
{
    let j = text::join(parts, slash());
    let e = Seq::<char>::empty();
    let none = Seq::<Seq<char>>::empty();
    assert(plain_parts(parts));
    components_of_joined_names(parts);
    lemma_split_of_joined(parts);
    lemma_named_keeps_plain(parts);
    reveal_with_fuel(named, 3);
    reveal_with_fuel(text::split, 3);
    assert(text::split(e, slash()) == seq![e]);
    assert(seq![e].drop_last() == none);
    assert(seq![e].last() == e);
    assert(named(seq![e]) == none);
    assert(slash() + j == e + slash() + j);
    text::split_at_separator(e, j, '/');
    lemma_named_concat(seq![e], parts);
    assert(none + parts == parts);
    assert(dot().drop_last() == e);
    assert(!slash().contains('.'));
    assert(text::split(dot(), slash()) == seq![dot()]) by {
        assert(seq![e].drop_last().push(e.push('.')) == seq![dot()]) by {
            assert(e.push('.') == dot());
        }
    }
    assert(seq![dot()].drop_last() == none);
    assert(seq![dot()].last() == dot());
    assert(named(seq![dot()]) == none);
    assert(seq!['.', '/'] + j == dot() + slash() + j);
    text::split_at_separator(dot(), j, '/');
    lemma_named_concat(seq![dot()], parts);
    assert((seq![dot()] + parts)[0] == dot());
}

proof fn lemma_after_separator(a: Seq<char>, b: Seq<char>, c: Seq<char>)
    requires
        a.len() > 0,
        named(text::split(b, slash())) == named(text::split(c, slash())),
    ensures
        components(a + slash() + b) == components(a + slash() + c),
{
    text::split_at_separator(a, b, '/');
    text::split_at_separator(a, c, '/');
    lemma_named_concat(text::split(a, slash()), text::split(b, slash()));
    lemma_named_concat(text::split(a, slash()), text::split(c, slash()));
    lemma_first_piece(a, b);
    lemma_first_piece(a, c);
    assert((a + slash() + b)[0] == a[0]);
    assert((a + slash() + c)[0] == a[0]);
}

/// Repeated separators, a `.` between separators and a separator at the end do
/// not count.
pub proof fn noise_does_not_count(a: Seq<char>, b: Seq<char>)
    requires
        a.len() > 0,
    ensures
        components(a + seq!['/', '/'] + b) == components(a + seq!['/'] + b),
        components(a + seq!['/', '.', '/'] + b) == components(a + seq!['/'] + b),
        components(a + seq!['/']) == components(a),
{
    let e = Seq::<char>::empty();
    let none = Seq::<Seq<char>>::empty();
    reveal_with_fuel(named, 3);
    reveal_with_fuel(text::split, 3);
    assert(text::split(e, slash()) == seq![e]);
    assert(seq![e].drop_last() == none);
    assert(seq![e].last() == e);
    assert(named(seq![e]) == none);
    assert(dot().drop_last() == e);
    assert(!slash().contains('.'));
    assert(text::split(dot(), slash()) == seq![dot()]) by {
        assert(seq![e].drop_last().push(e.push('.')) == seq![dot()]) by {
            assert(e.push('.') == dot());
        }
    }
    assert(seq![dot()].drop_last() == none);
    assert(seq![dot()].last() == dot());
    assert(named(seq![dot()]) == none);
    let s = text::split(b, slash());
    text::split_at_separator(e, b, '/');
    lemma_named_concat(seq![e], s);
    assert(none + named(s) == named(s));
    lemma_after_separator(a, e + slash() + b, b);
    assert(a + slash() + (e + slash() + b) == a + seq!['/', '/'] + b);
    text::split_at_separator(dot(), b, '/');
    lemma_named_concat(seq![dot()], s);
    lemma_after_separator(a, dot() + slash() + b, b);
    assert(a + slash() + (dot() + slash() + b) == a + seq!['/', '.', '/'] + b);
    text::split_at_separator(a, e, '/');
    lemma_named_concat(text::split(a, slash()), seq![e]);
    assert(named(text::split(a, slash())) + none == named(text::split(a, slash())));
    lemma_first_piece(a, e);
    assert(a + slash() + e == a + slash());
    assert((a + slash())[0] == a[0]);
}

/// The last `c` of a text is the one that no other follows.
pub proof fn last_index_is_followed_by_none(a: Seq<char>, c: char, b: Seq<char>)
    requires
        !b.contains(c),
    ensures
        last_index(a + seq![c] + b, c) == a.len(),
        last_index(b, c) == -1,
    decreases b.len(),
{
    let s = a + seq![c] + b;
    if b.len() == 0 {
        assert(s.last() == c);
    } else {
        let front = b.drop_last();
        assert(b.contains(b.last()));
        assert forall|i: int| 0 <= i < front.len() implies front[i] != c by {
            assert(b[i] == front[i]);
            assert(b.contains(b[i]));
        }
        last_index_is_followed_by_none(a, c, front);
        assert(s.drop_last() == a + seq![c] + front);
        assert(s.last() == b.last());
    }
}

/// The extension of a name is what follows its last dot, and the stem is what
/// comes before it. A name whose only dot is its first character, or that has
/// no dot, has no extension.
pub proof fn extension_follows_the_last_dot(stem: Seq<char>, ext: Seq<char>)
    requires
        stem.len() > 0,
        !ext.contains('.'),
    ensures
        ext_of_name(stem + seq!['.'] + ext) == Some(ext),
        stem_of(stem + seq!['.'] + ext) == stem,
        ext_of_name(ext) is None,
        stem_of(ext) == ext,
        ext_of_name(seq!['.'] + ext) is None,
        stem_of(seq!['.'] + ext) == seq!['.'] + ext,
{
    last_index_is_followed_by_none(stem, '.', ext);
    last_index_is_followed_by_none(Seq::empty(), '.', ext);
    let name = stem + seq!['.'] + ext;
    assert(name.skip(stem.len() as int + 1) == ext);
    assert(name.take(stem.len() as int) == stem);
    assert(Seq::<char>::empty() + seq!['.'] + ext == seq!['.'] + ext);
}

/// The file name of a path is its last name, and stem and extension are those
/// of that name; `..` is no name.
pub proof fn file_name_is_the_last_name(root: Seq<char>, parts: Seq<Seq<char>>)
    requires
        parts.len() > 0,
        forall|i: int|
            0 <= i < parts.len() ==> (#[trigger] parts[i]).len() > 0 && parts[i] != seq!['.']
                && !parts[i].contains('/'),
    ensures
        ({
            let t = path_join(root, text::join(parts, seq!['/']));
            let name = parts.last();
            &&& name != seq!['.', '.'] ==> file_name(t) == Some(name) && extension(t)
                == ext_of_name(name) && file_stem(t) == Some(stem_of(name))
            &&& name == seq!['.', '.'] ==> file_name(t) is None && extension(t) is None
                && file_stem(t) is None
        }),
{
    assert(plain_parts(parts));
    join_adds_components(root, parts);
    let c = components(root) + parts;
    assert(c.last() == parts.last());
    assert(parts.last() == parts[parts.len() - 1]);
    assert(parts.last() != slash()) by {
        if parts.last() == slash() {
            assert(slash()[0] == '/');
            assert(parts.last().contains('/'));
        }
    }
}

proof fn lemma_prefix_with(t: Seq<char>, c: Seq<Seq<char>>, from: int, k: int)
    requires
        0 <= from <= k < t.len(),
        components(t.take(k)) == c,
    ensures
        components(prefix_with(t, c, from)) == c,
        prefix_with(t, c, from).is_prefix_of(t),
    decreases k - from,
{
    if components(t.take(from)) != c {
        lemma_prefix_with(t, c, from + 1, k);
    }
}

/// The parent of a path below a root lacks just the last name, and is a
/// beginning of the path.
pub proof fn parent_lacks_the_last_name(root: Seq<char>, parts: Seq<Seq<char>>)
    requires
        parts.len() > 0,
        forall|i: int|
            0 <= i < parts.len() ==> (#[trigger] parts[i]).len() > 0 && parts[i] != seq!['.']
                && !parts[i].contains('/'),
    ensures
        ({
            let t = path_join(root, text::join(parts, seq!['/']));
            &&& has_parent(t)
            &&& parent_components(t) == components(root) + parts.drop_last()
            &&& components(parent_text(t)) == components(root) + parts.drop_last()
            &&& parent_text(t).is_prefix_of(t)
        }),
{
    assert(plain_parts(parts));
    join_adds_components(root, parts);
    let j = text::join(parts, slash());
    let t = path_join(root, j);
    let c = components(root) + parts;
    let front = parts.drop_last();
    let name = parts.last();
    lemma_join_first_char(parts);
    assert(name == parts[parts.len() - 1]);
    assert(c.last() == name);
    assert(name != slash()) by {
        if name == slash() {
            assert(slash()[0] == '/');
            assert(name.contains('/'));
        }
    }
    assert(c.drop_last() == components(root) + front);
    if front.len() == 0 {
        let k = root.len() as int;
        assert(t.take(k) == root);
        assert(components(root) + front == components(root));
        lemma_prefix_with(t, components(root), 0, k);
    } else {
        assert forall|i: int| 0 <= i < front.len() implies (#[trigger] front[i]).len() > 0
            && front[i] != dot() && !front[i].contains('/') by {
            assert(front[i] == parts[i]);
        }
        join_adds_components(root, front);
        lemma_join_first_char(front);
        let u = path_join(root, text::join(front, slash()));
        let k = u.len() as int;
        assert(j == text::join(front, slash()) + slash() + name);
        assert(t.take(k) == u);
        lemma_prefix_with(t, components(root) + front, 0, k);
    }
}

/// A path is at or below another exactly if it has the components of the other
/// and then its own; a path that starts at the root is not moved by a join.
pub proof fn below_means_more_components(base: Seq<char>, t: Seq<char>, parts: Seq<Seq<char>>)
    ensures
        path_starts_with(t, base) <==> components(t).len() >= components(base).len() && forall|
            i: int,
        |
            0 <= i < components(base).len() ==> #[trigger] components(t)[i] == components(base)[i],
        path_starts_with(base, base),
        t.len() > 0 && t[0] == '/' ==> path_join(base, t) == t,
        parts.len() > 0 && (forall|i: int|
            0 <= i < parts.len() ==> (#[trigger] parts[i]).len() > 0 && parts[i] != seq!['.']
                && !parts[i].contains('/')) ==> path_starts_with(
            path_join(base, text::join(parts, seq!['/'])),
            base,
        ),
{
    let c = components(base);
    let d = components(t);
    if d.len() >= c.len() && (forall|i: int| 0 <= i < c.len() ==> #[trigger] d[i] == c[i]) {
        assert(c =~= d.subrange(0, c.len() as int));
    }
    if path_starts_with(t, base) {
        assert forall|i: int| 0 <= i < c.len() implies #[trigger] d[i] == c[i] by {
            assert(d.subrange(0, c.len() as int)[i] == d[i]);
        }
    }
    assert(c =~= c.subrange(0, c.len() as int));
    if parts.len() > 0 && (forall|i: int|
        0 <= i < parts.len() ==> (#[trigger] parts[i]).len() > 0 && parts[i] != seq!['.']
            && !parts[i].contains('/')) {
        assert(plain_parts(parts));
        join_adds_components(base, parts);
        assert((c + parts).subrange(0, c.len() as int) =~= c);
    }
}

/// Paths stand for their texts, one by one where they are listed and not at all
/// where there is none.
pub proof fn paths_stand_for_their_texts(v: Seq<FilePath>, p: FilePath, o: Option<FilePath>)
    ensures
        path_texts(Seq::empty()).len() == 0,
        path_texts(v.push(p)) == path_texts(v).push(p.text@),
        path_text(o) is Some <==> o is Some,
        o matches Some(x) ==> path_text(o) == Some(x.text@),
{
    assert(path_texts(v.push(p)) =~= path_texts(v).push(p.text@));
}

} // verus!
