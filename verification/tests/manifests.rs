use harvest::manifest::xml_escape;
use harvest::{to_mhl, to_sidecar, FilePath, HashAlgo, ManifestEntry};

fn entries() -> Vec<ManifestEntry> {
    vec![
        ManifestEntry {
            rel: FilePath::new("clips/A & B/take 1.mov"),
            size: 1024,
            hash: "deadbeef".into(),
        },
        ManifestEntry { rel: FilePath::new("root.dat"), size: 7, hash: "cafef00d".into() },
    ]
}

#[test]
fn mhl_has_expected_elements_and_escapes_paths() {
    let mhl = to_mhl(&entries(), HashAlgo::Xxh64, "Harvest 0.1.0", "S", "F").unwrap();
    assert!(mhl.contains("<hashlist version=\"1.1\">"));
    assert!(mhl.contains("<xxhash64be>deadbeef</xxhash64be>"));
    assert!(mhl.contains("<size>1024</size>"));
    // Path uses forward slashes and XML-escapes the ampersand.
    assert!(mhl.contains("<file>clips/A &amp; B/take 1.mov</file>"));
    // MD5 uses a different element name.
    let md5 = to_mhl(&entries(), HashAlgo::Md5, "t", "s", "f").unwrap();
    assert!(md5.contains("<md5>deadbeef</md5>"));
}

#[test]
fn xxh3_has_no_mhl_but_has_sidecar() {
    assert!(to_mhl(&entries(), HashAlgo::Xxh3, "t", "s", "f").is_none());
    let side = to_sidecar(&entries(), HashAlgo::Xxh3);
    assert!(side.contains("deadbeef *clips/A & B/take 1.mov"));
    assert!(side.contains("cafef00d *root.dat"));
}

#[test]
fn mhl_document_in_full() {
    let one = vec![ManifestEntry { rel: FilePath::new("a//b.mov"), size: 0, hash: "ff".into() }];
    let mhl = to_mhl(&one, HashAlgo::Md5, "T & Co", "<start>", "f").unwrap();
    assert_eq!(
        mhl,
        "<?xml version=\"1.0\" encoding=\"UTF-8\"?>\n\
         <hashlist version=\"1.1\">\n\
         \x20   <creatorinfo>\n\
         \x20       <tool>T &amp; Co</tool>\n\
         \x20       <startdate>&lt;start&gt;</startdate>\n\
         \x20       <finishdate>f</finishdate>\n\
         \x20   </creatorinfo>\n\
         \x20   <hash>\n\
         \x20       <file>a/b.mov</file>\n\
         \x20       <size>0</size>\n\
         \x20       <md5>ff</md5>\n\
         \x20   </hash>\n\
         </hashlist>\n"
    );
}

#[test]
fn sidecar_in_full() {
    assert_eq!(to_sidecar(&Vec::new(), HashAlgo::Md5), "; harvest manifest (md5)\n");
    assert_eq!(
        to_sidecar(&entries(), HashAlgo::Xxh3),
        "; harvest manifest (xxh3)\ndeadbeef *clips/A & B/take 1.mov\ncafef00d *root.dat\n"
    );
}

#[test]
fn xml_specials_are_escaped() {
    assert_eq!(xml_escape("a<b>&\"c'"), "a&lt;b&gt;&amp;&quot;c&apos;");
    assert_eq!(xml_escape("&amp;"), "&amp;amp;");
    assert_eq!(xml_escape(""), "");
    assert_eq!(xml_escape("grün"), "grün");
}
