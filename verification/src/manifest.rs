//! Proof-of-transfer manifests.
//!
//! Two formats:
//! * **MHL** (Media Hash List, mediahashlist.org) — the XML standard understood
//!   by other media tools. Only emitted for algorithms MHL defines an element
//!   for (xxHash64, MD5).
//! * **Sidecar** — a simple `<hash> *<relative-path>` text file (the familiar
//!   `md5sum`/`xxhsum` layout), always available regardless of algorithm.

use crate::hash;
use crate::hash::HashAlgo;
use crate::path;
use crate::path::{forward_slash, FilePath};
use crate::text;
use crate::text::decimal_text;
use vstd::prelude::*;
use vstd::string::*;

verus! {

/// One file's verified result, with its path relative to the source root.
#[derive(Debug)]
pub struct ManifestEntry {
    pub rel: FilePath,
    pub size: u64,
    pub hash: String,
}

/// What a [`ManifestEntry`] stands for.
pub struct EntryModel {
    pub rel: Seq<char>,
    pub size: u64,
    pub hash: Seq<char>,
}

impl View for ManifestEntry {
    type V = EntryModel;

    open spec fn view(&self) -> EntryModel {
        EntryModel { rel: self.rel@, size: self.size, hash: self.hash@ }
    }
}

impl Clone for ManifestEntry {
    fn clone(&self) -> (r: Self)
        ensures
            r == *self,
    {
        ManifestEntry { rel: self.rel.clone(), size: self.size, hash: self.hash.clone() }
    }
}

/// What each entry of a list stands for.
pub open spec fn entry_models(entries: Seq<ManifestEntry>) -> Seq<EntryModel> {
    Seq::new(entries.len(), |i: int| entries[i]@)
}

/// How one character is written in XML.
pub open spec fn xml_char(c: char) -> Seq<char> {
    if c == '&' {
        "&amp;"@
    } else if c == '<' {
        "&lt;"@
    } else if c == '>' {
        "&gt;"@
    } else if c == '"' {
        "&quot;"@
    } else if c == '\'' {
        "&apos;"@
    } else {
        seq![c]
    }
}

/// How a text is written in XML.
pub open spec fn xml_text(s: Seq<char>) -> Seq<char>
    decreases s.len(),
{
    if s.len() == 0 {
        Seq::<char>::empty()
    } else {
        xml_text(s.drop_last()) + xml_char(s.last())
    }
}

/// The element of one file in a Media Hash List.
pub open spec fn mhl_block(e: EntryModel, element: Seq<char>) -> Seq<char> {
    "    <hash>\n"@ + "        <file>"@ + xml_text(path::slashed(e.rel)) + "</file>\n"@
        + "        <size>"@ + text::decimal(e.size as nat) + "</size>\n"@ + "        <"@ + element
        + ">"@ + e.hash + "</"@ + element + ">\n"@ + "    </hash>\n"@
}

/// The elements of the files, one after the other.
pub open spec fn mhl_blocks(entries: Seq<EntryModel>, element: Seq<char>) -> Seq<char>
    decreases entries.len(),
{
    if entries.len() == 0 {
        Seq::<char>::empty()
    } else {
        mhl_blocks(entries.drop_last(), element) + mhl_block(entries.last(), element)
    }
}

/// What stands before the files in a Media Hash List.
pub open spec fn mhl_head(tool: Seq<char>, start: Seq<char>, finish: Seq<char>) -> Seq<char> {
    "<?xml version=\"1.0\" encoding=\"UTF-8\"?>\n"@ + "<hashlist version=\"1.1\">\n"@
        + "    <creatorinfo>\n"@ + "        <tool>"@ + xml_text(tool) + "</tool>\n"@
        + "        <startdate>"@ + xml_text(start) + "</startdate>\n"@ + "        <finishdate>"@
        + xml_text(finish) + "</finishdate>\n"@ + "    </creatorinfo>\n"@
}

/// A Media Hash List; `None` if the algorithm has no element in it.
pub open spec fn mhl_document(
    entries: Seq<EntryModel>,
    algo: HashAlgo,
    tool: Seq<char>,
    start: Seq<char>,
    finish: Seq<char>,
) -> Option<Seq<char>> {
    match hash::mhl_element_of(algo) {
        Some(element) => Some(
            mhl_head(tool, start, finish) + mhl_blocks(entries, element) + "</hashlist>\n"@,
        ),
        None => None,
    }
}

/// The line of one file in a sidecar.
pub open spec fn sidecar_line(e: EntryModel) -> Seq<char> {
    e.hash + " *"@ + path::slashed(e.rel) + "\n"@
}

/// A sidecar: a comment that names the algorithm, and a line per file.
pub open spec fn sidecar_document(entries: Seq<EntryModel>, algo: HashAlgo) -> Seq<char>
    decreases entries.len(),
{
    if entries.len() == 0 {
        "; harvest manifest ("@ + hash::algo_name(algo) + ")\n"@
    } else {
        sidecar_document(entries.drop_last(), algo) + sidecar_line(entries.last())
    }
}

/// The path of an entry with forward slashes (manifests are portable across
/// platforms; backslashes are not).
fn rel_str(entry: &ManifestEntry) -> (r: String)
    ensures
        r@ == path::slashed(entry@.rel),
{
    forward_slash(&entry.rel)
}

/// How a text is written in XML.
pub fn xml_escape(s: &str) -> (r: String)
    ensures
        r@ == xml_text(s@),
{
    let mut out = String::new();
    for c in it: s.chars()
        invariant
            it.seq() == s@,
            out@ == xml_text(s@.take(it.index())),
    {
        let ghost next = s@.take(it.index() + 1);
        assert(next.drop_last() == s@.take(it.index()));
        assert(next.last() == c);
        let ghost before = out@;
        if c == '&' {
            out.append("&amp;");
        } else if c == '<' {
            out.append("&lt;");
        } else if c == '>' {
            out.append("&gt;");
        } else if c == '"' {
            out.append("&quot;");
        } else if c == '\'' {
            out.append("&apos;");
        } else {
            out.push(c);
            assert(out@ == before + seq![c]);
        }
    }
    assert(s@.take(s@.len() as int) == s@);
    out
}

/// Builds a classic MHL (v1.1) document, or `None` if the algorithm has no MHL
/// element (e.g. xxHash3 — use [`to_sidecar`] for those).
///
/// `start`/`finish` are ISO-8601 timestamps supplied by the caller.
pub fn to_mhl(
    entries: &Vec<ManifestEntry>,
    algo: HashAlgo,
    tool: &str,
    start: &str,
    finish: &str,
) -> (r: Option<String>)
    ensures
        r is Some <==> mhl_document(entry_models(entries@), algo, tool@, start@, finish@) is Some,
        r matches Some(s) ==> Some(s@) == mhl_document(
            entry_models(entries@),
            algo,
            tool@,
            start@,
            finish@,
        ),
{
    let Some(element) = algo.mhl_element() else {
        return None;
    };
    let mut s = "<?xml version=\"1.0\" encoding=\"UTF-8\"?>\n".to_owned();
    s.append("<hashlist version=\"1.1\">\n");
    s.append("    <creatorinfo>\n");
    s.append("        <tool>");
    s.append(xml_escape(tool).as_str());
    s.append("</tool>\n");
    s.append("        <startdate>");
    s.append(xml_escape(start).as_str());
    s.append("</startdate>\n");
    s.append("        <finishdate>");
    s.append(xml_escape(finish).as_str());
    s.append("</finishdate>\n");
    s.append("    </creatorinfo>\n");
    let ghost all = entry_models(entries@);
    let ghost head = mhl_head(tool@, start@, finish@);
    let mut i: usize = 0;
    assert(s@ == head + mhl_blocks(all.take(0), element@));
    while i < entries.len()
        invariant
            all == entry_models(entries@),
            i <= entries@.len(),
            s@ == head + mhl_blocks(all.take(i as int), element@),
        decreases entries@.len() - i,
    {
        let block = block_text(&entries[i], element);
        s.append(block.as_str());
        assert(all.take(i + 1).drop_last() == all.take(i as int));
        assert(all.take(i + 1).last() == entries@[i as int]@);
        assert(s@ == head + mhl_blocks(all.take(i + 1), element@));
        i += 1;
    }
    assert(all.take(all.len() as int) == all);
    s.append("</hashlist>\n");
    Some(s)
}

/// The element of one file in a Media Hash List.
fn block_text(e: &ManifestEntry, element: &str) -> (r: String)
    ensures
        r@ == mhl_block(e@, element@),
{
    let mut s = "    <hash>\n".to_owned();
    s.append("        <file>");
    s.append(xml_escape(rel_str(e).as_str()).as_str());
    s.append("</file>\n");
    s.append("        <size>");
    s.append(decimal_text(e.size).as_str());
    s.append("</size>\n");
    s.append("        <");
    s.append(element);
    s.append(">");
    s.append(e.hash.as_str());
    s.append("</");
    s.append(element);
    s.append(">\n");
    s.append("    </hash>\n");
    s
}

/// Builds a simple sidecar manifest: one `<hash> *<relative-path>` line per
/// file. The first line is a `;`-prefixed comment recording the algorithm.
pub fn to_sidecar(entries: &Vec<ManifestEntry>, algo: HashAlgo) -> (r: String)
    ensures
        r@ == sidecar_document(entry_models(entries@), algo),
{
    let mut s = "; harvest manifest (".to_owned();
    s.append(algo.name());
    s.append(")\n");
    let ghost all = entry_models(entries@);
    let mut i: usize = 0;
    assert(s@ == sidecar_document(all.take(0), algo));
    while i < entries.len()
        invariant
            all == entry_models(entries@),
            i <= entries@.len(),
            s@ == sidecar_document(all.take(i as int), algo),
        decreases entries@.len() - i,
    {
        let ghost before = s@;
        let rel = rel_str(&entries[i]);
        s.append(entries[i].hash.as_str());
        s.append(" *");
        s.append(rel.as_str());
        s.append("\n");
        assert(all.take(i + 1).drop_last() == all.take(i as int));
        assert(all.take(i + 1).last() == entries@[i as int]@);
        assert(s@ == before + sidecar_line(entries@[i as int]@));
        i += 1;
    }
    assert(all.take(all.len() as int) == all);
    s
}

// ---------------------------------------------------------------------------
// Laws
// ---------------------------------------------------------------------------

proof fn lemma_xml_first(s: Seq<char>)
    requires
        s.len() > 0,
    ensures
        xml_text(s) == xml_char(s[0]) + xml_text(s.skip(1)),
    decreases s.len(),
{
    if s.len() == 1 {
        assert(s.drop_last() == Seq::<char>::empty());
        assert(s.skip(1) == Seq::<char>::empty());
        assert(xml_text(s.drop_last()) == Seq::<char>::empty());
        assert(xml_text(s) == xml_char(s[0]) + xml_text(s.skip(1)));
    } else {
        let front = s.drop_last();
        lemma_xml_first(front);
        assert(front.skip(1) == s.skip(1).drop_last());
        assert(s.skip(1).last() == s.last());
        assert(xml_char(s[0]) + xml_text(front.skip(1)) + xml_char(s.last()) == xml_char(s[0]) + (
        xml_text(front.skip(1)) + xml_char(s.last())));
    }
}

proof fn lemma_xml_codes()
    ensures
        "&amp;"@ == seq!['&', 'a', 'm', 'p', ';'],
        "&lt;"@ == seq!['&', 'l', 't', ';'],
        "&gt;"@ == seq!['&', 'g', 't', ';'],
        "&quot;"@ == seq!['&', 'q', 'u', 'o', 't', ';'],
        "&apos;"@ == seq!['&', 'a', 'p', 'o', 's', ';'],
{
    reveal_strlit("&amp;");
    reveal_strlit("&lt;");
    reveal_strlit("&gt;");
    reveal_strlit("&quot;");
    reveal_strlit("&apos;");
    assert("&amp;"@ =~= seq!['&', 'a', 'm', 'p', ';']);
    assert("&lt;"@ =~= seq!['&', 'l', 't', ';']);
    assert("&gt;"@ =~= seq!['&', 'g', 't', ';']);
    assert("&quot;"@ =~= seq!['&', 'q', 'u', 'o', 't', ';']);
    assert("&apos;"@ =~= seq!['&', 'a', 'p', 'o', 's', ';']);
}

/// Escaping loses nothing: two texts that are written alike in XML are the
/// same text, so the path of a file can be read back from a manifest.
pub proof fn xml_escaping_is_faithful(a: Seq<char>, b: Seq<char>)
    requires
        xml_text(a) == xml_text(b),
    ensures
        a == b,
    decreases a.len(),
{
    lemma_xml_codes();
    if a.len() > 0 {
        lemma_xml_first(a);
    }
    if b.len() > 0 {
        lemma_xml_first(b);
    }
    if a.len() == 0 || b.len() == 0 {
        if a.len() > 0 {
            assert(xml_char(a[0]).len() > 0);
            assert(xml_text(a).len() > 0);
        }
        if b.len() > 0 {
            assert(xml_char(b[0]).len() > 0);
            assert(xml_text(b).len() > 0);
        }
        assert(a.len() == 0 && b.len() == 0);
        assert(a =~= b);
    } else {
        let x = xml_char(a[0]);
        let y = xml_char(b[0]);
        let xs = xml_text(a.skip(1));
        let ys = xml_text(b.skip(1));
        assert((x + xs)[0] == (y + ys)[0]);
        assert(x.len() > 1 ==> (x + xs)[1] == x[1] && (x + xs)[2] == x[2]);
        assert(y.len() > 1 ==> (y + ys)[1] == y[1] && (y + ys)[2] == y[2]);
        assert(a[0] == b[0]);
        assert((x + xs).skip(x.len() as int) == xs);
        assert((y + ys).skip(y.len() as int) == ys);
        xml_escaping_is_faithful(a.skip(1), b.skip(1));
        assert(a == seq![a[0]] + a.skip(1));
        assert(b == seq![b[0]] + b.skip(1));
    }
}

/// No character with a meaning in XML is left in an escaped text, but for the
/// `&` that begins an escape.
pub proof fn xml_escaping_leaves_no_markup(s: Seq<char>)
    ensures
        !xml_text(s).contains('<'),
        !xml_text(s).contains('>'),
        !xml_text(s).contains('"'),
        !xml_text(s).contains('\''),
    decreases s.len(),
{
    if s.len() > 0 {
        xml_escaping_leaves_no_markup(s.drop_last());
        lemma_xml_codes();
        let a = xml_text(s.drop_last());
        let b = xml_char(s.last());
        assert forall|i: int| 0 <= i < (a + b).len() implies (a + b)[i] != '<' && (a + b)[i] != '>'
            && (a + b)[i] != '"' && (a + b)[i] != '\'' by {
            if i < a.len() {
                assert(a.contains(a[i]));
            } else {
                assert((a + b)[i] == b[i - a.len()]);
            }
        }
    }
}

/// Escaping goes character by character: the five characters with a meaning in
/// XML are written by their names, and every other one as it is.
pub proof fn escaping_goes_character_by_character(a: Seq<char>, b: Seq<char>, c: char)
    ensures
        xml_text(a + b) == xml_text(a) + xml_text(b),
        xml_text(seq!['&']) == "&amp;"@,
        xml_text(seq!['<']) == "&lt;"@,
        xml_text(seq!['>']) == "&gt;"@,
        xml_text(seq!['"']) == "&quot;"@,
        xml_text(seq!['\'']) == "&apos;"@,
        c != '&' && c != '<' && c != '>' && c != '"' && c != '\'' ==> xml_text(seq![c]) == seq![c],
        xml_text(Seq::empty()).len() == 0,
    decreases b.len(),
{
    reveal_with_fuel(xml_text, 2);
    let e = Seq::<char>::empty();
    assert(seq!['&'].drop_last() == e);
    assert(seq!['<'].drop_last() == e);
    assert(seq!['>'].drop_last() == e);
    assert(seq!['"'].drop_last() == e);
    assert(seq!['\''].drop_last() == e);
    assert(seq![c].drop_last() == e);
    assert(e + "&amp;"@ == "&amp;"@);
    assert(e + "&lt;"@ == "&lt;"@);
    assert(e + "&gt;"@ == "&gt;"@);
    assert(e + "&quot;"@ == "&quot;"@);
    assert(e + "&apos;"@ == "&apos;"@);
    assert(e + seq![c] == seq![c]);
    if b.len() == 0 {
        assert(a + b == a);
        assert(xml_text(a) + xml_text(b) == xml_text(a));
    } else {
        escaping_goes_character_by_character(a, b.drop_last(), c);
        assert((a + b).drop_last() == a + b.drop_last());
        assert((a + b).last() == b.last());
        assert(xml_text(a) + xml_text(b.drop_last()) + xml_char(b.last()) == xml_text(a) + (xml_text(
            b.drop_last(),
        ) + xml_char(b.last())));
    }
}

/// Whether a text stands somewhere in another.
pub open spec fn stands_in(part: Seq<char>, whole: Seq<char>) -> bool {
    exists|i: int|
        0 <= i && i + part.len() <= whole.len() && #[trigger] whole.subrange(i, i + part.len())
            == part
}

proof fn lemma_stands_in(a: Seq<char>, part: Seq<char>, b: Seq<char>)
    ensures
        stands_in(part, a + part + b),
{
    let whole = a + part + b;
    let i = a.len() as int;
    assert(whole.subrange(i, i + part.len()) == part);
}

proof fn lemma_blocks_concat(a: Seq<EntryModel>, b: Seq<EntryModel>, element: Seq<char>)
    ensures
        mhl_blocks(a + b, element) == mhl_blocks(a, element) + mhl_blocks(b, element),
    decreases b.len(),
{
    if b.len() == 0 {
        assert(a + b == a);
        assert(mhl_blocks(a, element) + mhl_blocks(b, element) == mhl_blocks(a, element));
    } else {
        lemma_blocks_concat(a, b.drop_last(), element);
        assert((a + b).drop_last() == a + b.drop_last());
        assert((a + b).last() == b.last());
        assert(mhl_blocks(a, element) + mhl_blocks(b.drop_last(), element) + mhl_block(
            b.last(),
            element,
        ) == mhl_blocks(a, element) + (mhl_blocks(b.drop_last(), element) + mhl_block(
            b.last(),
            element,
        )));
    }
}

/// A Media Hash List holds every file: its escaped path, its size and, in the
/// element of the algorithm, its checksum, one after the other. It names the
/// tool and the times. There is one for xxHash64 and MD5 alone.
pub proof fn hash_lists_hold_every_file(
    entries: Seq<EntryModel>,
    algo: HashAlgo,
    tool: Seq<char>,
    start: Seq<char>,
    finish: Seq<char>,
    i: int,
)
    requires
        0 <= i < entries.len(),
    ensures
        mhl_document(entries, algo, tool, start, finish) is None <==> algo == HashAlgo::Xxh3,
        mhl_document(entries, algo, tool, start, finish) matches Some(doc) ==> ({
            let element = if algo == HashAlgo::Xxh64 {
                "xxhash64be"@
            } else {
                "md5"@
            };
            let e = entries[i];
            &&& stands_in(
                "<file>"@ + xml_text(path::slashed(e.rel)) + "</file>\n        <size>"@
                    + text::decimal(e.size as nat) + "</size>\n        <"@ + element + ">"@ + e.hash
                    + "</"@ + element + ">"@,
                doc,
            )
            &&& stands_in("<tool>"@ + xml_text(tool) + "</tool>"@, doc)
            &&& stands_in("<startdate>"@ + xml_text(start) + "</startdate>"@, doc)
            &&& stands_in("<finishdate>"@ + xml_text(finish) + "</finishdate>"@, doc)
        }),
{
    if let Some(doc) = mhl_document(entries, algo, tool, start, finish) {
        let element = hash::mhl_element_of(algo)->0;
        let head = mhl_head(tool, start, finish);
        let tail = "</hashlist>\n"@;
        lemma_document_holds(entries, element, head, tail, i);
        lemma_head_holds(tool, start, finish, mhl_blocks(entries, element) + tail);
        assert(doc == head + (mhl_blocks(entries, element) + tail));
    }
}

/// What a Media Hash List holds of one file.
spec fn file_part(e: EntryModel, element: Seq<char>) -> Seq<char> {
    "<file>"@ + xml_text(path::slashed(e.rel)) + "</file>\n        <size>"@ + text::decimal(
        e.size as nat,
    ) + "</size>\n        <"@ + element + ">"@ + e.hash + "</"@ + element + ">"@
}

proof fn lemma_document_holds(
    entries: Seq<EntryModel>,
    element: Seq<char>,
    head: Seq<char>,
    tail: Seq<char>,
    i: int,
)
    requires
        0 <= i < entries.len(),
    ensures
        stands_in(file_part(entries[i], element), head + mhl_blocks(entries, element) + tail),
{
    let e = entries[i];
    let (front, back) = lemma_block_holds(e, element);
    let file = file_part(e, element);
    let a = entries.take(i);
    let b = entries.skip(i + 1);
    assert(entries == a + (seq![e] + b));
    lemma_blocks_concat(a, seq![e] + b, element);
    lemma_blocks_concat(seq![e], b, element);
    lemma_one_block(e, element);
    let x = mhl_blocks(a, element);
    let y = mhl_blocks(b, element);
    lemma_regroup(head, x, front, file, back, y, tail);
    lemma_stands_in(head + x + front, file, back + y + tail);
}

proof fn lemma_one_block(e: EntryModel, element: Seq<char>)
    ensures
        mhl_blocks(seq![e], element) == mhl_block(e, element),
{
    reveal_with_fuel(mhl_blocks, 2);
    assert(seq![e].drop_last() == Seq::<EntryModel>::empty());
    let block = mhl_block(e, element);
    assert(Seq::<char>::empty() + block == block);
}

proof fn lemma_regroup(
    head: Seq<char>,
    x: Seq<char>,
    front: Seq<char>,
    file: Seq<char>,
    back: Seq<char>,
    y: Seq<char>,
    tail: Seq<char>,
)
    ensures
        head + (x + ((front + file + back) + y)) + tail == (head + x + front) + file + (back + y
            + tail),
{
}

proof fn lemma_block_holds(e: EntryModel, element: Seq<char>) -> (around: (Seq<char>, Seq<char>))
    ensures
        mhl_block(e, element) == around.0 + file_part(e, element) + around.1,
{
    reveal_strlit("    <hash>\n");
    reveal_strlit("        <file>");
    reveal_strlit("<file>");
    reveal_strlit("</file>\n");
    reveal_strlit("        <size>");
    reveal_strlit("</file>\n        <size>");
    reveal_strlit("</size>\n");
    reveal_strlit("        <");
    reveal_strlit("</size>\n        <");
    reveal_strlit(">\n");
    reveal_strlit(">");
    reveal_strlit("    </hash>\n");
    reveal_strlit("    <hash>\n        ");
    reveal_strlit("\n    </hash>\n");
    let front = "    <hash>\n        "@;
    let back = "\n    </hash>\n"@;
    assert("    <hash>\n"@ + "        <file>"@ == front + "<file>"@);
    assert("</file>\n"@ + "        <size>"@ == "</file>\n        <size>"@);
    assert("</size>\n"@ + "        <"@ == "</size>\n        <"@);
    assert(">\n"@ + "    </hash>\n"@ == ">"@ + back);
    lemma_block_regroup(e, element, front, back);
    (front, back)
}

proof fn lemma_block_regroup(
    e: EntryModel,
    element: Seq<char>,
    front: Seq<char>,
    back: Seq<char>,
)
    requires
        "    <hash>\n"@ + "        <file>"@ == front + "<file>"@,
        "</file>\n"@ + "        <size>"@ == "</file>\n        <size>"@,
        "</size>\n"@ + "        <"@ == "</size>\n        <"@,
        ">\n"@ + "    </hash>\n"@ == ">"@ + back,
    ensures
        mhl_block(e, element) == front + file_part(e, element) + back,
{
    let p = xml_text(path::slashed(e.rel));
    let n = text::decimal(e.size as nat);
    let inner = p + "</file>\n        <size>"@ + n + "</size>\n        <"@ + element + ">"@ + e.hash
        + "</"@ + element;
    assert(mhl_block(e, element) == ("    <hash>\n"@ + "        <file>"@) + p + ("</file>\n"@
        + "        <size>"@) + n + ("</size>\n"@ + "        <"@) + element + ">"@ + e.hash + "</"@
        + element + (">\n"@ + "    </hash>\n"@));
    assert(mhl_block(e, element) == (front + "<file>"@) + inner + (">"@ + back));
    assert(file_part(e, element) == "<file>"@ + inner + ">"@);
    assert((front + "<file>"@) + inner + (">"@ + back) == front + ("<file>"@ + inner + ">"@) + back);
}

proof fn lemma_head_holds(
    tool: Seq<char>,
    start: Seq<char>,
    finish: Seq<char>,
    rest: Seq<char>,
)
    ensures
        ({
            let doc = mhl_head(tool, start, finish) + rest;
            &&& stands_in("<tool>"@ + xml_text(tool) + "</tool>"@, doc)
            &&& stands_in("<startdate>"@ + xml_text(start) + "</startdate>"@, doc)
            &&& stands_in("<finishdate>"@ + xml_text(finish) + "</finishdate>"@, doc)
        }),
{
    reveal_strlit("        <tool>");
    reveal_strlit("        <startdate>");
    reveal_strlit("        <finishdate>");
    reveal_strlit("<tool>");
    reveal_strlit("<startdate>");
    reveal_strlit("<finishdate>");
    reveal_strlit("</tool>\n");
    reveal_strlit("</startdate>\n");
    reveal_strlit("</finishdate>\n");
    reveal_strlit("</tool>");
    reveal_strlit("</startdate>");
    reveal_strlit("</finishdate>");
    reveal_strlit("        ");
    reveal_strlit("\n");
    let pad = "        "@;
    let nl = "\n"@;
    assert("        <tool>"@ == pad + "<tool>"@);
    assert("        <startdate>"@ == pad + "<startdate>"@);
    assert("        <finishdate>"@ == pad + "<finishdate>"@);
    assert("</tool>\n"@ == "</tool>"@ + nl);
    assert("</startdate>\n"@ == "</startdate>"@ + nl);
    assert("</finishdate>\n"@ == "</finishdate>"@ + nl);
    let t = "<tool>"@ + xml_text(tool) + "</tool>"@;
    let s = "<startdate>"@ + xml_text(start) + "</startdate>"@;
    let f = "<finishdate>"@ + xml_text(finish) + "</finishdate>"@;
    let top = "<?xml version=\"1.0\" encoding=\"UTF-8\"?>\n"@ + "<hashlist version=\"1.1\">\n"@
        + "    <creatorinfo>\n"@;
    let end = "    </creatorinfo>\n"@ + rest;
    let doc = mhl_head(tool, start, finish) + rest;
    assert(doc == (top + pad) + t + (nl + pad + s + nl + pad + f + nl + end));
    lemma_stands_in(top + pad, t, nl + pad + s + nl + pad + f + nl + end);
    assert(doc == (top + pad + t + nl + pad) + s + (nl + pad + f + nl + end));
    lemma_stands_in(top + pad + t + nl + pad, s, nl + pad + f + nl + end);
    assert(doc == (top + pad + t + nl + pad + s + nl + pad) + f + (nl + end));
    lemma_stands_in(top + pad + t + nl + pad + s + nl + pad, f, nl + end);
}

/// A sidecar is written line by line: a comment that names the algorithm, and
/// then, for each file in order, its checksum, a blank, a star and its path.
pub proof fn sidecars_are_written_line_by_line(
    entries: Seq<EntryModel>,
    e: EntryModel,
    algo: HashAlgo,
)
    ensures
        sidecar_document(entries.push(e), algo) == sidecar_document(entries, algo) + (e.hash
            + seq![' ', '*'] + path::slashed(e.rel) + seq!['\n']),
        stands_in(hash::algo_name(algo), sidecar_document(Seq::empty(), algo)),
        sidecar_document(Seq::empty(), algo)[0] == ';',
{
    assert(entries.push(e).drop_last() == entries);
    reveal_strlit(" *");
    reveal_strlit("\n");
    assert(" *"@ == seq![' ', '*']);
    assert("\n"@ == seq!['\n']);
    reveal_strlit("; harvest manifest (");
    lemma_stands_in("; harvest manifest ("@, hash::algo_name(algo), ")\n"@);
}

/// An entry stands for its fields.
pub proof fn entries_stand_for_their_fields(entries: Seq<ManifestEntry>, i: int)
    requires
        0 <= i < entries.len(),
    ensures
        entry_models(entries).len() == entries.len(),
        entry_models(entries)[i].rel == entries[i].rel.text@,
        entry_models(entries)[i].size == entries[i].size,
        entry_models(entries)[i].hash == entries[i].hash@,
{
}

/// A Media Hash List grows file by file: one more file is one more element in
/// front of the end, and nothing else changes.
pub proof fn hash_lists_grow_file_by_file(
    entries: Seq<EntryModel>,
    e: EntryModel,
    algo: HashAlgo,
    tool: Seq<char>,
    start: Seq<char>,
    finish: Seq<char>,
)
    requires
        algo != HashAlgo::Xxh3,
    ensures
        ({
            let short = mhl_document(entries, algo, tool, start, finish)->0;
            let long = mhl_document(entries.push(e), algo, tool, start, finish)->0;
            let end = "</hashlist>\n"@;
            let element = if algo == HashAlgo::Xxh64 {
                "xxhash64be"@
            } else {
                "md5"@
            };
            let kept = short.len() - end.len();
            &&& kept >= 0
            &&& short == short.take(kept) + end
            &&& long == short.take(kept) + ("    <hash>\n"@ + "        <file>"@ + xml_text(
                path::slashed(e.rel),
            ) + "</file>\n"@ + "        <size>"@ + text::decimal(e.size as nat) + "</size>\n"@
                + "        <"@ + element + ">"@ + e.hash + "</"@ + element + ">\n"@
                + "    </hash>\n"@) + end
        }),
{
    let element = hash::mhl_element_of(algo)->0;
    let head = mhl_head(tool, start, finish);
    let end = "</hashlist>\n"@;
    let body = head + mhl_blocks(entries, element);
    assert(entries.push(e).drop_last() == entries);
    let short = body + end;
    assert(short.take(body.len() as int) == body);
    let block = mhl_block(e, element);
    assert(head + (mhl_blocks(entries, element) + block) == body + block);
}

/// A Media Hash List of no files says who made it and when.
pub proof fn hash_lists_begin_with_their_maker(
    algo: HashAlgo,
    tool: Seq<char>,
    start: Seq<char>,
    finish: Seq<char>,
)
    requires
        algo != HashAlgo::Xxh3,
    ensures
        mhl_document(Seq::empty(), algo, tool, start, finish) == Some(
            "<?xml version=\"1.0\" encoding=\"UTF-8\"?>\n"@ + "<hashlist version=\"1.1\">\n"@
                + "    <creatorinfo>\n"@ + "        <tool>"@ + xml_text(tool) + "</tool>\n"@
                + "        <startdate>"@ + xml_text(start) + "</startdate>\n"@
                + "        <finishdate>"@ + xml_text(finish) + "</finishdate>\n"@
                + "    </creatorinfo>\n"@ + "</hashlist>\n"@,
        ),
{
    let head = mhl_head(tool, start, finish);
    let none = Seq::<EntryModel>::empty();
    assert(mhl_blocks(none, hash::mhl_element_of(algo)->0) == Seq::<char>::empty());
    assert(head + Seq::<char>::empty() == head);
}

} // verus!
